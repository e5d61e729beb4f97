//! The on-disk record codec: `[header-length varint][serial-type varint]*`
//! followed by each value's content bytes. Serial-type codes: Null=0,
//! one- to eight-byte big-endian two's-complement integers = 1..=6,
//! eight-byte big-endian float = 7, `len*2+13` for text, `len*2+12` for
//! blobs. Integers are stored in the narrowest width that contains them.
use vstd::prelude::*;
use vstd::arithmetic::power2::pow2;
use vstd::arithmetic::power2::lemma2_to64;
use vstd::arithmetic::power2::lemma2_to64_rest;
use vstd::arithmetic::power2::lemma_pow2_adds;
use vstd::arithmetic::div_mod::lemma_div_denominator;
use vstd::utf8::encode_utf8;
use crate::value::OwnedRecord;
use crate::value::OwnedValue;
use crate::value::ValueView;
use crate::value::values_view;
use crate::value::lemma_values_view_index;
use crate::varint::varint;
use crate::varint::varint_len;
use crate::varint::write_varint;
use crate::LimboError;

verus! {

/// The number of content bytes an integer `i` occupies: the narrowest of
/// one, two, three, four, six or eight bytes of two's complement that
/// contains it.
pub open spec fn int_width(i: int) -> int {
    if -0x80 <= i <= 0x7f {
        1
    } else if -0x8000 <= i <= 0x7fff {
        2
    } else if -0x80_0000 <= i <= 0x7f_ffff {
        3
    } else if -0x8000_0000 <= i <= 0x7fff_ffff {
        4
    } else if -0x8000_0000_0000 <= i <= 0x7fff_ffff_ffff {
        6
    } else {
        8
    }
}

/// The serial-type code of a scalar value.
pub open spec fn spec_serial_type(v: ValueView) -> nat {
    match v {
        ValueView::Null => 0,
        ValueView::Integer(i) => {
            let w = int_width(i);
            if w == 1 {
                1
            } else if w == 2 {
                2
            } else if w == 3 {
                3
            } else if w == 4 {
                4
            } else if w == 6 {
                5
            } else {
                6
            }
        },
        ValueView::Float(_) => 7,
        ValueView::Text(s, _) => (encode_utf8(s).len() * 2 + 13) as nat,
        ValueView::Blob(b) => (b.len() * 2 + 12) as nat,
        ValueView::Agg(_) => 0,
        ValueView::Record(_) => 0,
    }
}

/// Whether the codec accepts a value: aggregate accumulators and nested
/// records are a contract violation, and a text or blob payload must be
/// short enough for its serial type to fit a machine word.
pub open spec fn serializable_value(v: ValueView) -> bool {
    match v {
        ValueView::Agg(_) => false,
        ValueView::Record(_) => false,
        ValueView::Integer(i) => i64::MIN <= i <= i64::MAX,
        ValueView::Text(s, _) => encode_utf8(s).len() * 2 + 13 <= usize::MAX,
        ValueView::Blob(b) => b.len() * 2 + 12 <= usize::MAX,
        _ => true,
    }
}

/// Whether every value of a record is accepted by the codec.
pub open spec fn serializable(vs: Seq<ValueView>) -> bool {
    forall|i: int| 0 <= i < vs.len() ==> serializable_value(vs[i])
}

/// `w` big-endian bytes of `x`; `x < 2^(8w)`.
pub open spec fn be_bytes(x: nat, w: int) -> Seq<u8> {
    Seq::new(w as nat, |k: int| ((x / pow2((8 * (w - 1 - k)) as nat)) % 0x100) as u8)
}

/// The content bytes of one value: nothing for Null, truncated big-endian
/// two's complement for integers, the bit pattern for floats, the raw
/// payload for text and blobs.
pub open spec fn spec_content(v: ValueView) -> Seq<u8> {
    match v {
        ValueView::Null => Seq::empty(),
        ValueView::Integer(i) => be_bytes(
            (i % (pow2((8 * int_width(i)) as nat) as int)) as nat,
            int_width(i),
        ),
        ValueView::Float(bits) => be_bytes(bits as nat, 8),
        ValueView::Text(s, _) => encode_utf8(s),
        ValueView::Blob(b) => b,
        ValueView::Agg(_) => Seq::empty(),
        ValueView::Record(_) => Seq::empty(),
    }
}

/// The concatenated serial-type varints of a record's values.
pub open spec fn tags_bytes(vs: Seq<ValueView>) -> Seq<u8>
    decreases vs.len(),
{
    if vs.len() == 0 {
        Seq::empty()
    } else {
        varint(spec_serial_type(vs[0]) as u64) + tags_bytes(vs.subrange(1, vs.len() as int))
    }
}

/// The concatenated content bytes of a record's values.
pub open spec fn contents_bytes(vs: Seq<ValueView>) -> Seq<u8>
    decreases vs.len(),
{
    if vs.len() == 0 {
        Seq::empty()
    } else {
        spec_content(vs[0]) + contents_bytes(vs.subrange(1, vs.len() as int))
    }
}

/// Whether the header fits the single-byte length varint the encoder
/// supports: the serial-type list plus the length byte itself is at most
/// 126 bytes.
pub open spec fn header_fits(vs: Seq<ValueView>) -> bool {
    tags_bytes(vs).len() + 1 <= 126
}

/// The record encoding: the header length (counting its own byte), the
/// serial types, then the contents.
pub open spec fn spec_serialize(vs: Seq<ValueView>) -> Seq<u8> {
    varint((tags_bytes(vs).len() + 1) as u64) + tags_bytes(vs) + contents_bytes(vs)
}

/// Appending a value extends the serial-type bytes at the end.
pub proof fn lemma_tags_bytes_push(vs: Seq<ValueView>, x: ValueView)
    ensures
        tags_bytes(vs.push(x)) == tags_bytes(vs) + varint(spec_serial_type(x) as u64),
    decreases vs.len(),
{
    if vs.len() == 0 {
        assert(vs.push(x)[0] == x);
        assert(vs.push(x).subrange(1, 1) =~= Seq::<ValueView>::empty());
        assert(vs =~= Seq::<ValueView>::empty());
        assert(tags_bytes(Seq::<ValueView>::empty()) == Seq::<u8>::empty());
        assert(tags_bytes(vs.push(x)) == varint(spec_serial_type(vs.push(x)[0]) as u64)
            + tags_bytes(vs.push(x).subrange(1, vs.push(x).len() as int)));
        assert(tags_bytes(vs.push(x)) =~= tags_bytes(vs) + varint(spec_serial_type(x) as u64));
    } else {
        assert(vs.push(x).subrange(1, vs.len() as int + 1) =~= vs.subrange(1, vs.len() as int).push(x));
        lemma_tags_bytes_push(vs.subrange(1, vs.len() as int), x);
        assert(tags_bytes(vs.push(x)) =~= tags_bytes(vs) + varint(spec_serial_type(x) as u64));
    }
}

/// Appending a value extends the content bytes at the end.
pub proof fn lemma_contents_bytes_push(vs: Seq<ValueView>, x: ValueView)
    ensures
        contents_bytes(vs.push(x)) == contents_bytes(vs) + spec_content(x),
    decreases vs.len(),
{
    if vs.len() == 0 {
        assert(vs.push(x)[0] == x);
        assert(vs.push(x).subrange(1, 1) =~= Seq::<ValueView>::empty());
        assert(vs =~= Seq::<ValueView>::empty());
        assert(contents_bytes(Seq::<ValueView>::empty()) == Seq::<u8>::empty());
        assert(contents_bytes(vs.push(x)) == spec_content(vs.push(x)[0]) + contents_bytes(
            vs.push(x).subrange(1, vs.push(x).len() as int),
        ));
        assert(contents_bytes(vs.push(x)) =~= contents_bytes(vs) + spec_content(x));
    } else {
        assert(vs.push(x).subrange(1, vs.len() as int + 1) =~= vs.subrange(1, vs.len() as int).push(x));
        lemma_contents_bytes_push(vs.subrange(1, vs.len() as int), x);
        assert(contents_bytes(vs.push(x)) =~= contents_bytes(vs) + spec_content(x));
    }
}

/// `pow2(8 * k)` as a machine word, for the byte shifts of a content field.
fn pow256(k: u64) -> (r: u64)
    requires
        k <= 7,
    ensures
        r == pow2((8 * k) as nat),
        r >= 1,
{
    proof {
        lemma2_to64();
        lemma2_to64_rest();
    }
    if k == 0 {
        1
    } else if k == 1 {
        0x100
    } else if k == 2 {
        0x1_0000
    } else if k == 3 {
        0x100_0000
    } else if k == 4 {
        0x1_0000_0000
    } else if k == 5 {
        0x100_0000_0000
    } else if k == 6 {
        0x1_0000_0000_0000
    } else {
        0x100_0000_0000_0000
    }
}

/// Appends the `w` big-endian bytes of `x` to `buf`.
fn push_be(buf: &mut Vec<u8>, x: u64, w: usize)
    requires
        1 <= w <= 8,
        w < 8 ==> x < pow2((8 * w) as nat),
    ensures
        final(buf)@ == old(buf)@ + be_bytes(x as nat, w as int),
{
    let ghost prior = buf@;
    let mut k: usize = 0;
    proof {
        assert(buf@ =~= prior + Seq::new(
            0 as nat,
            |j: int| ((x as nat / pow2((8 * (w - 1 - j)) as nat)) % 0x100) as u8,
        ));
    }
    while k < w
        invariant
            1 <= w <= 8,
            0 <= k <= w,
            buf@ == prior + Seq::new(
                k as nat,
                |j: int| ((x as nat / pow2((8 * (w - 1 - j)) as nat)) % 0x100) as u8,
            ),
        decreases w - k,
    {
        let p = pow256((w - 1 - k) as u64);
        let b = ((x / p) % 0x100) as u8;
        buf.push(b);
        k = k + 1;
        proof {
            assert(buf@ =~= prior + Seq::new(
                k as nat,
                |j: int| ((x as nat / pow2((8 * (w - 1 - j)) as nat)) % 0x100) as u8,
            ));
        }
    }
    proof {
        assert(buf@ =~= prior + be_bytes(x as nat, w as int));
    }
}

/// The byte count of the varint encoding of `v`.
fn varint_size(v: u64) -> (n: usize)
    ensures
        n == varint_len(v),
{
    if v < 0x80 {
        1
    } else if v < 0x4000 {
        2
    } else if v < 0x20_0000 {
        3
    } else if v < 0x1000_0000 {
        4
    } else if v < 0x8_0000_0000 {
        5
    } else if v < 0x400_0000_0000 {
        6
    } else if v < 0x2_0000_0000_0000 {
        7
    } else if v < 0x100_0000_0000_0000 {
        8
    } else {
        9
    }
}

/// Appends a byte slice to `buf`.
fn extend_bytes(buf: &mut Vec<u8>, other: &[u8])
    ensures
        final(buf)@ == old(buf)@ + other@,
{
    let ghost prior = buf@;
    let n = other.len();
    let mut j: usize = 0;
    while j < n
        invariant
            n == other@.len(),
            0 <= j <= n,
            buf@ == prior + other@.subrange(0, j as int),
        decreases n - j,
    {
        buf.push(other[j]);
        proof {
            assert(buf@ =~= prior + other@.subrange(0, j as int + 1));
        }
        j = j + 1;
    }
    proof {
        assert(buf@ =~= prior + other@);
    }
}

impl OwnedValue {
    /// The serial-type code of this value.
    pub fn serial_type(&self) -> (t: u64)
        requires
            serializable_value(self@),
        ensures
            t == spec_serial_type(self@),
    {
        match self {
            OwnedValue::Null => 0,
            OwnedValue::Integer(i) => {
                let i = *i;
                if -0x80 <= i && i <= 0x7f {
                    1
                } else if -0x8000 <= i && i <= 0x7fff {
                    2
                } else if -0x80_0000 <= i && i <= 0x7f_ffff {
                    3
                } else if -0x8000_0000 <= i && i <= 0x7fff_ffff {
                    4
                } else if -0x8000_0000_0000 <= i && i <= 0x7fff_ffff_ffff {
                    5
                } else {
                    6
                }
            },
            OwnedValue::Float(_) => 7,
            OwnedValue::Text(t) => {
                let len = t.value.as_str().len();
                proof {
                    assert(self@ matches ValueView::Text(s, st) && s == t.value@);
                    assert(len == encode_utf8(t.value@).len());
                }
                (len as u64) * 2 + 13
            },
            OwnedValue::Blob(b) => {
                let len = b.len();
                (len as u64) * 2 + 12
            },
            OwnedValue::Agg(_) => 0,
            OwnedValue::Record(_) => 0,
        }
    }
}

/// With single-byte serial types throughout — every tag below 128 — the
/// serial-type list is one byte per value, so the header length recorded in
/// the encoding is the value count plus one for the length byte itself.
pub proof fn lemma_header_len_single_byte_tags(vs: Seq<ValueView>)
    requires
        forall|i: int| 0 <= i < vs.len() ==> spec_serial_type(vs[i]) < 0x80,
    ensures
        tags_bytes(vs).len() == vs.len(),
    decreases vs.len(),
{
    if vs.len() > 0 {
        let tail = vs.subrange(1, vs.len() as int);
        assert(forall|i: int| 0 <= i < tail.len() ==> tail[i] == vs[i + 1]);
        lemma_header_len_single_byte_tags(tail);
        assert(varint(spec_serial_type(vs[0]) as u64).len() == 1);
    }
}

/// The big-endian value of a byte sequence.
pub open spec fn be_value(bytes: Seq<u8>) -> nat
    decreases bytes.len(),
{
    if bytes.len() == 0 {
        0
    } else {
        (be_value(bytes.subrange(0, bytes.len() - 1)) * 0x100 + bytes[bytes.len() - 1]) as nat
    }
}

/// The content width, in bytes, of an integer serial type.
pub open spec fn tag_width(t: nat) -> int {
    if t == 1 {
        1
    } else if t == 2 {
        2
    } else if t == 3 {
        3
    } else if t == 4 {
        4
    } else if t == 5 {
        6
    } else {
        8
    }
}

/// Whether a serial-type code is one this format defines.
pub open spec fn valid_tag(t: nat) -> bool {
    t <= 7 || t >= 12
}

/// How many content bytes a serial type owns.
pub open spec fn tag_content_size(t: nat) -> int {
    if t == 0 {
        0
    } else if t <= 6 {
        tag_width(t)
    } else if t == 7 {
        8
    } else if t % 2 == 0 {
        (t - 12) as int / 2
    } else {
        (t - 13) as int / 2
    }
}

/// The signed value of `w` bytes of two's complement read as the unsigned
/// value `x`.
pub open spec fn sign_extend(x: nat, w: int) -> int {
    if x >= pow2((8 * w - 1) as nat) {
        x - pow2((8 * w) as nat)
    } else {
        x as int
    }
}

/// Decodes one value from its serial type and exactly its content bytes.
/// Text bytes that are not valid UTF-8, and the serial-type codes this
/// format leaves undefined, decode to nothing.
pub open spec fn spec_decode_value(t: nat, content: Seq<u8>) -> Option<ValueView> {
    if t == 0 {
        Some(ValueView::Null)
    } else if t <= 6 {
        Some(ValueView::Integer(sign_extend(be_value(content), tag_width(t))))
    } else if t == 7 {
        Some(ValueView::Float(be_value(content) as u64))
    } else if t < 12 {
        None
    } else if t % 2 == 0 {
        Some(ValueView::Blob(content))
    } else if vstd::utf8::valid_utf8(content) {
        Some(ValueView::Text(vstd::utf8::decode_utf8(content), crate::value::TextSubtype::Text))
    } else {
        None
    }
}

/// Reads serial-type varints from `pos` up to exactly `end`.
pub open spec fn spec_decode_tags(bytes: Seq<u8>, pos: int, end: int) -> Option<Seq<nat>>
    decreases end - pos,
    via spec_decode_tags_decreases
{
    if pos == end {
        Some(Seq::empty())
    } else if pos > end {
        None
    } else {
        match crate::varint::spec_read_varint(bytes, pos) {
            None => None,
            Some((t, next)) => if next > end {
                None
            } else {
                match spec_decode_tags(bytes, next, end) {
                    None => None,
                    Some(rest) => Some(seq![t] + rest),
                }
            },
        }
    }
}

#[via_fn]
proof fn spec_decode_tags_decreases(bytes: Seq<u8>, pos: int, end: int) {
    if pos < end {
        crate::varint::lemma_read_varint_advances(bytes, pos, 0, 0);
    }
}

/// Decodes one content field per tag, consuming the bytes exactly.
pub open spec fn spec_decode_contents(tags: Seq<nat>, bytes: Seq<u8>, pos: int) -> Option<
    Seq<ValueView>,
>
    decreases tags.len(),
{
    if tags.len() == 0 {
        if pos == bytes.len() {
            Some(Seq::empty())
        } else {
            None
        }
    } else {
        let t = tags[0];
        if !valid_tag(t) {
            None
        } else {
            let sz = tag_content_size(t);
            if pos < 0 || pos + sz > bytes.len() {
                None
            } else {
                match spec_decode_value(t, bytes.subrange(pos, pos + sz)) {
                    None => None,
                    Some(v) => match spec_decode_contents(
                        tags.subrange(1, tags.len() as int),
                        bytes,
                        pos + sz,
                    ) {
                        None => None,
                        Some(rest) => Some(seq![v] + rest),
                    },
                }
            }
        }
    }
}

/// The decoded form of a record's bytes: the header-length varint, the
/// serial-type list it delimits, then each value's content, with nothing
/// left over.
pub open spec fn spec_deserialize(bytes: Seq<u8>) -> Option<Seq<ValueView>> {
    match crate::varint::spec_read_varint(bytes, 0) {
        None => None,
        Some((h, after)) => if h > bytes.len() || after > h {
            None
        } else {
            match spec_decode_tags(bytes, after, h as int) {
                None => None,
                Some(tags) => spec_decode_contents(tags, bytes, h as int),
            }
        },
    }
}

/// The serial-type codes of a record's values, in order.
pub open spec fn tags_of(vs: Seq<ValueView>) -> Seq<nat>
    decreases vs.len(),
{
    if vs.len() == 0 {
        Seq::empty()
    } else {
        seq![spec_serial_type(vs[0])] + tags_of(vs.subrange(1, vs.len() as int))
    }
}

/// Whether every text value carries the plain subtype, the one decoding
/// reconstructs: the subtype is not persisted.
pub open spec fn plain_texts(vs: Seq<ValueView>) -> bool {
    forall|i: int|
        0 <= i < vs.len() ==> (#[trigger] vs[i] matches ValueView::Text(_, st) ==> st
            == crate::value::TextSubtype::Text)
}

/// Reading big-endian bytes inverts writing them.
pub proof fn lemma_be_round_trip(x: nat, w: int)
    requires
        0 <= w,
        x < pow2((8 * w) as nat),
    ensures
        be_value(be_bytes(x, w)) == x,
    decreases w,
{
    lemma2_to64();
    if w == 0 {
        assert(be_bytes(x, 0) =~= Seq::<u8>::empty());
    } else {
        let hi = x / 0x100;
        assert(hi < pow2((8 * (w - 1)) as nat)) by {
            lemma_pow2_adds((8 * (w - 1)) as nat, 8);
            if hi >= pow2((8 * (w - 1)) as nat) {
                vstd::arithmetic::mul::lemma_mul_inequality(
                    pow2((8 * (w - 1)) as nat) as int,
                    hi as int,
                    0x100,
                );
                vstd::arithmetic::div_mod::lemma_fundamental_div_mod(x as int, 0x100);
                assert(false);
            }
        }
        lemma_be_round_trip(hi, w - 1);
        assert(be_bytes(x, w).subrange(0, w - 1) =~= be_bytes(hi, w - 1)) by {
            assert forall|k: int| 0 <= k < w - 1 implies be_bytes(x, w)[k] == be_bytes(
                hi,
                w - 1,
            )[k] by {
                vstd::arithmetic::power2::lemma_pow2_pos((8 * (w - 2 - k)) as nat);
                lemma_div_denominator(x as int, 0x100, pow2((8 * (w - 2 - k)) as nat) as int);
                lemma_pow2_adds(8, (8 * (w - 2 - k)) as nat);
                assert(x as nat / pow2((8 * (w - 1 - k)) as nat) == hi / pow2(
                    (8 * (w - 2 - k)) as nat,
                ));
            }
        }
        assert(be_bytes(x, w)[w - 1] == (x % 0x100) as u8) by {
            assert(pow2(0) == 1);
            vstd::arithmetic::div_mod::lemma_div_basics(x as int);
        }
        vstd::arithmetic::div_mod::lemma_fundamental_div_mod(x as int, 0x100);
    }
}

/// The number of content bytes a value occupies is the size its serial
/// type owns.
pub proof fn lemma_content_size(v: ValueView)
    requires
        serializable_value(v),
    ensures
        spec_content(v).len() == tag_content_size(spec_serial_type(v)),
        valid_tag(spec_serial_type(v)),
        spec_serial_type(v) <= u64::MAX,
{
}

/// Decoding one value from its serial type and content bytes returns the
/// value: every step of encoding a scalar is inverted exactly, with a
/// decoded text always carrying the plain subtype.
pub proof fn lemma_decode_value_inverts(v: ValueView)
    requires
        serializable_value(v),
        v matches ValueView::Text(_, st) ==> st == crate::value::TextSubtype::Text,
    ensures
        spec_decode_value(spec_serial_type(v), spec_content(v)) == Some(v),
{
    lemma2_to64();
    lemma2_to64_rest();
    match v {
        ValueView::Null => {},
        ValueView::Integer(i) => {
            let w = int_width(i);
            let p = pow2((8 * w) as nat) as int;
            let half = pow2((8 * w - 1) as nat) as int;
            lemma_pow2_adds((8 * w - 1) as nat, 1);
            assert(p == 2 * half);
            assert(1 <= half && -half <= i < half) by {
                if w == 1 {
                    assert(half == pow2(7));
                } else if w == 2 {
                    assert(half == pow2(15));
                } else if w == 3 {
                    assert(half == pow2(23));
                } else if w == 4 {
                    assert(half == pow2(31));
                } else if w == 6 {
                    assert(half == pow2(47));
                } else {
                    assert(half == pow2(63));
                }
            }
            let tc = i % p;
            if i >= 0 {
                vstd::arithmetic::div_mod::lemma_small_mod(i as nat, pow2((8 * w) as nat));
                assert(tc == i);
                assert(tc < half);
            } else {
                vstd::arithmetic::div_mod::lemma_fundamental_div_mod_converse(i, p, -1, i + p);
                assert(tc == i + p);
                assert(tc >= half);
            }
            lemma_be_round_trip(tc as nat, w);
            assert(be_value(spec_content(v)) == tc as nat);
            assert(sign_extend(tc as nat, tag_width(spec_serial_type(v))) == i);
        },
        ValueView::Float(bits) => {
            lemma_be_round_trip(bits as nat, 8);
        },
        ValueView::Text(s, _) => {
            vstd::utf8::encode_utf8_valid_utf8(s);
            vstd::utf8::encode_utf8_decode_utf8(s);
        },
        ValueView::Blob(_) => {},
        ValueView::Agg(_) => {},
        ValueView::Record(_) => {},
    }
}

/// Reading the serial-type region of an encoded record yields its tags,
/// wherever the region stands in a larger buffer.
pub proof fn lemma_decode_tags_inverts(vs: Seq<ValueView>, bytes: Seq<u8>, pos: int)
    requires
        serializable(vs),
        0 <= pos,
        pos + tags_bytes(vs).len() <= bytes.len(),
        bytes.subrange(pos, pos + tags_bytes(vs).len()) == tags_bytes(vs),
    ensures
        spec_decode_tags(bytes, pos, pos + tags_bytes(vs).len()) == Some(tags_of(vs)),
    decreases vs.len(),
{
    if vs.len() == 0 {
    } else {
        let t = spec_serial_type(vs[0]);
        let head = varint(t as u64);
        let tail = vs.subrange(1, vs.len() as int);
        let total = tags_bytes(vs).len();
        assert(serializable_value(vs[0]));
        lemma_content_size(vs[0]);
        assert(t as u64 as nat == t);
        assert(bytes.subrange(pos, pos + head.len() as int) =~= head) by {
            assert forall|k: int| 0 <= k < head.len() implies bytes[pos + k] == head[k] by {
                assert(bytes.subrange(pos, pos + total)[k] == bytes[pos + k]);
            }
        }
        crate::varint::lemma_varint_round_trip(bytes, pos, t as u64);
        let next = pos + head.len();
        assert(bytes.subrange(next, next + tags_bytes(tail).len()) =~= tags_bytes(tail)) by {
            assert forall|k: int| 0 <= k < tags_bytes(tail).len() implies bytes[next + k]
                == tags_bytes(tail)[k] by {
                assert(bytes.subrange(pos, pos + total)[head.len() + k] == bytes[next + k]);
                assert(tags_bytes(vs)[head.len() + k] == tags_bytes(tail)[k]);
            }
        }
        lemma_decode_tags_inverts(tail, bytes, next);
        assert(spec_decode_tags(bytes, pos, pos + total) == Some(seq![t] + tags_of(tail)));
        assert(tags_of(vs) == seq![t] + tags_of(tail));
    }
}

/// Reading the content region of an encoded record, tag by tag, yields its
/// values exactly, consuming the buffer to its end.
pub proof fn lemma_decode_contents_inverts(vs: Seq<ValueView>, bytes: Seq<u8>, pos: int)
    requires
        serializable(vs),
        plain_texts(vs),
        0 <= pos,
        pos + contents_bytes(vs).len() == bytes.len(),
        bytes.subrange(pos, bytes.len() as int) == contents_bytes(vs),
    ensures
        spec_decode_contents(tags_of(vs), bytes, pos) == Some(vs),
    decreases vs.len(),
{
    if vs.len() == 0 {
        assert(tags_of(vs) =~= Seq::<nat>::empty());
        assert(vs =~= Seq::<ValueView>::empty());
    } else {
        let v = vs[0];
        let t = spec_serial_type(v);
        let c = spec_content(v);
        let tail = vs.subrange(1, vs.len() as int);
        let total = contents_bytes(vs).len();
        assert(serializable_value(v));
        lemma_content_size(v);
        assert(tags_of(vs)[0] == t);
        assert(tags_of(vs).subrange(1, tags_of(vs).len() as int) =~= tags_of(tail));
        assert(bytes.subrange(pos, pos + c.len() as int) =~= c) by {
            assert forall|k: int| 0 <= k < c.len() implies bytes[pos + k] == c[k] by {
                assert(bytes.subrange(pos, pos + total)[k] == bytes[pos + k]);
            }
        }
        lemma_decode_value_inverts(v);
        let next = pos + c.len();
        assert(bytes.subrange(next, bytes.len() as int) =~= contents_bytes(tail)) by {
            assert forall|k: int| 0 <= k < contents_bytes(tail).len() implies bytes[next + k]
                == contents_bytes(tail)[k] by {
                assert(bytes.subrange(pos, pos + total)[c.len() + k] == bytes[next + k]);
                assert(contents_bytes(vs)[c.len() + k] == contents_bytes(tail)[k]);
            }
        }
        assert(forall|i: int| 0 <= i < tail.len() ==> tail[i] == vs[i + 1]);
        lemma_decode_contents_inverts(tail, bytes, next);
        assert(spec_decode_contents(tags_of(vs), bytes, pos) == Some(seq![v] + tail));
        assert(vs =~= seq![v] + tail);
    }
}

/// Decoding inverts encoding: a record of codec-accepted scalars whose
/// header fits, with plain text subtypes (the only subtype the format
/// stores), decodes from its own encoding unchanged.
pub proof fn lemma_serialize_round_trip(vs: Seq<ValueView>)
    requires
        serializable(vs),
        header_fits(vs),
        plain_texts(vs),
    ensures
        spec_deserialize(spec_serialize(vs)) == Some(vs),
{
    lemma2_to64();
    let bytes = spec_serialize(vs);
    let tlen = tags_bytes(vs).len() as int;
    let h = (tlen + 1) as u64;
    assert(varint_len(h) == 1);
    assert(bytes.subrange(0, 1) =~= varint(h));
    crate::varint::lemma_varint_round_trip(bytes, 0, h);
    assert(crate::varint::spec_read_varint(bytes, 0) == Some((h as nat, 1int)));
    assert(bytes.subrange(1, 1 + tlen) =~= tags_bytes(vs)) by {
        assert forall|k: int| 0 <= k < tlen implies bytes[1 + k] == tags_bytes(vs)[k] by {
            assert((varint(h) + tags_bytes(vs))[1 + k] == tags_bytes(vs)[k]);
        }
    }
    lemma_decode_tags_inverts(vs, bytes, 1);
    assert(spec_decode_tags(bytes, 1, h as int) == Some(tags_of(vs)));
    assert(bytes.subrange(h as int, bytes.len() as int) =~= contents_bytes(vs));
    lemma_decode_contents_inverts(vs, bytes, h as int);
}

/// Relies on `String::from_utf8`: returns the string decoded from `b`
/// exactly when `b` is valid UTF-8.
#[verifier::external_body]
fn string_from_utf8(b: Vec<u8>) -> (r: Option<String>)
    ensures
        match r {
            Some(s) => vstd::utf8::valid_utf8(b@) && s@ == vstd::utf8::decode_utf8(b@),
            None => !vstd::utf8::valid_utf8(b@),
        },
{
    match String::from_utf8(b) {
        Ok(s) => Some(s),
        Err(_) => None,
    }
}

/// Reads `w` big-endian bytes starting at `pos`.
fn read_be(bytes: &[u8], pos: usize, w: usize) -> (x: u64)
    requires
        w <= 8,
        pos + w <= bytes@.len(),
    ensures
        x as nat == be_value(bytes@.subrange(pos as int, pos as int + w as int)),
        x < pow2((8 * w) as nat),
{
    proof {
        lemma2_to64();
        lemma2_to64_rest();
        assert(bytes@.subrange(pos as int, pos as int) =~= Seq::<u8>::empty());
    }
    let total = bytes.len();
    let mut acc: u64 = 0;
    let mut k: usize = 0;
    while k < w
        invariant
            w <= 8,
            0 <= k <= w,
            pos + w <= bytes@.len(),
            bytes@.len() == total,
            acc as nat == be_value(bytes@.subrange(pos as int, pos as int + k as int)),
            acc < pow2((8 * k) as nat),
        decreases w - k,
    {
        proof {
            lemma2_to64();
            lemma2_to64_rest();
            lemma_pow2_adds((8 * k) as nat, 8);
            let whole = bytes@.subrange(pos as int, pos as int + k as int + 1);
            assert(whole.subrange(0, k as int) =~= bytes@.subrange(
                pos as int,
                pos as int + k as int,
            ));
            assert(whole[k as int] == bytes@[pos as int + k as int]);
        }
        acc = acc * 0x100 + (bytes[pos + k] as u64);
        k = k + 1;
    }
    acc
}

impl OwnedRecord {
    /// Decodes a record from its byte encoding: the inverse of `serialize`.
    /// Returns nothing exactly when the bytes are not a record: a truncated
    /// or overlong buffer, an undefined serial-type code, or text content
    /// that is not valid UTF-8.
    #[verifier::rlimit(50)]
    pub fn deserialize(bytes: &[u8]) -> (r: Option<OwnedRecord>)
        ensures
            match r {
                Some(rec) => spec_deserialize(bytes@) == Some(rec@),
                None => spec_deserialize(bytes@) is None,
            },
    {
        proof {
            lemma2_to64();
            lemma2_to64_rest();
        }
        let len = bytes.len();
        let (h, after) = match crate::varint::read_varint(bytes, 0) {
            None => {
                return None;
            },
            Some(p) => p,
        };
        if h > len as u64 || after as u64 > h {
            return None;
        }
        let hs = h as usize;
        let mut pos = after;
        let mut tags: Vec<u64> = Vec::new();
        let ghost mut gtags: Seq<nat> = Seq::empty();
        proof {
            assert(gtags + spec_decode_tags(bytes@, pos as int, hs as int).unwrap()
                =~= spec_decode_tags(bytes@, pos as int, hs as int).unwrap());
        }
        while pos < hs
            invariant
                after <= pos <= hs <= bytes@.len(),
                len == bytes@.len(),
                hs == h,
                crate::varint::spec_read_varint(bytes@, 0) == Some((h as nat, after as int)),
                tags@.len() == gtags.len(),
                forall|j: int| 0 <= j < gtags.len() ==> gtags[j] == tags@[j] as nat,
                (match spec_decode_tags(bytes@, pos as int, hs as int) {
                    None => spec_decode_tags(bytes@, after as int, hs as int) is None,
                    Some(rest) => spec_decode_tags(bytes@, after as int, hs as int) == Some(
                        gtags + rest,
                    ),
                }),
            decreases hs - pos,
        {
            let (t, next) = match crate::varint::read_varint(bytes, pos) {
                None => {
                    return None;
                },
                Some(p) => p,
            };
            proof {
                crate::varint::lemma_read_varint_advances(bytes@, pos as int, 0, 0);
            }
            if next > hs {
                return None;
            }
            proof {
                let stepped = spec_decode_tags(bytes@, next as int, hs as int);
                assert(spec_decode_tags(bytes@, pos as int, hs as int) == (match stepped {
                    None => None::<Seq<nat>>,
                    Some(rest2) => Some(seq![t as nat] + rest2),
                }));
                if let Some(rest2) = stepped {
                    assert(gtags + (seq![t as nat] + rest2) =~= gtags.push(t as nat) + rest2);
                }
                gtags = gtags.push(t as nat);
            }
            tags.push(t);
            pos = next;
        }
        proof {
            assert(spec_decode_tags(bytes@, hs as int, hs as int) == Some(Seq::<nat>::empty()));
            assert(gtags + Seq::<nat>::empty() =~= gtags);
            assert(spec_decode_tags(bytes@, after as int, hs as int) == Some(gtags));
        }
        let n = tags.len();
        let mut values: Vec<OwnedValue> = Vec::new();
        let mut i: usize = 0;
        let mut pos = hs;
        proof {
            assert(gtags.subrange(0, gtags.len() as int) =~= gtags);
            assert(crate::value::values_view(values@) =~= Seq::<ValueView>::empty());
        }
        while i < n
            invariant
                0 <= i <= n,
                n == gtags.len(),
                n == tags@.len(),
                len == bytes@.len(),
                hs <= pos <= len,
                hs == h,
                crate::varint::spec_read_varint(bytes@, 0) == Some((h as nat, after as int)),
                after <= hs <= len,
                spec_decode_tags(bytes@, after as int, hs as int) == Some(gtags),
                forall|j: int| 0 <= j < gtags.len() ==> gtags[j] == tags@[j] as nat,
                values@.len() == i,
                (match spec_decode_contents(
                    gtags.subrange(i as int, n as int),
                    bytes@,
                    pos as int,
                ) {
                    None => spec_decode_contents(gtags, bytes@, hs as int) is None,
                    Some(rest) => spec_decode_contents(gtags, bytes@, hs as int) == Some(
                        values_view(values@) + rest,
                    ),
                }),
            decreases n - i,
        {
            proof {
                lemma2_to64();
                lemma2_to64_rest();
                assert(gtags.subrange(i as int, n as int)[0] == gtags[i as int]);
                assert(gtags.subrange(i as int, n as int).subrange(
                    1,
                    (n - i) as int,
                ) =~= gtags.subrange(i as int + 1, n as int));
            }
            let t = tags[i];
            if t >= 8 && t <= 11 {
                return None;
            }
            let sz: u64 = if t == 0 {
                0
            } else if t == 1 {
                1
            } else if t == 2 {
                2
            } else if t == 3 {
                3
            } else if t == 4 {
                4
            } else if t == 5 {
                6
            } else if t == 6 {
                8
            } else if t == 7 {
                8
            } else if t % 2 == 0 {
                (t - 12) / 2
            } else {
                (t - 13) / 2
            };
            proof {
                assert(sz == tag_content_size(t as nat));
            }
            if sz > (len - pos) as u64 {
                return None;
            }
            let szu = sz as usize;
            let ghost content = bytes@.subrange(pos as int, pos as int + sz as int);
            let v: OwnedValue;
            if t == 0 {
                v = OwnedValue::Null;
            } else if t <= 6 {
                let w: usize = if t == 5 {
                    6
                } else if t == 6 {
                    8
                } else {
                    t as usize
                };
                let x = read_be(bytes, pos, w);
                let iv: i64;
                if w == 8 {
                    if x >= 0x8000_0000_0000_0000 {
                        iv = i64::MIN + ((x - 0x8000_0000_0000_0000) as i64);
                    } else {
                        iv = x as i64;
                    }
                } else {
                    let p = pow256(w as u64);
                    let half = p / 2;
                    if x >= half {
                        iv = (x as i64) - (p as i64);
                    } else {
                        iv = x as i64;
                    }
                }
                proof {
                    lemma_pow2_adds((8 * w - 1) as nat, 1);
                    assert(pow2((8 * w) as nat) == pow2((8 * w - 1) as nat) * 2);
                    assert(iv as int == sign_extend(be_value(content), tag_width(t as nat)));
                }
                v = OwnedValue::Integer(iv);
            } else if t == 7 {
                let x = read_be(bytes, pos, 8);
                v = OwnedValue::Float(x);
            } else if t % 2 == 0 {
                let part = vstd::slice::slice_subrange(bytes, pos, pos + szu);
                v = OwnedValue::Blob(vstd::slice::slice_to_vec(part));
            } else {
                let part = vstd::slice::slice_subrange(bytes, pos, pos + szu);
                let owned = vstd::slice::slice_to_vec(part);
                match string_from_utf8(owned) {
                    None => {
                        return None;
                    },
                    Some(s) => {
                        v = OwnedValue::Text(crate::value::LimboText::new(s));
                    },
                }
            }
            proof {
                assert(spec_decode_value(t as nat, content) == Some(v@));
            }
            let ghost prior_values = values@;
            values.push(v);
            i = i + 1;
            pos = pos + szu;
            proof {
                assert(values@ =~= prior_values.push(v));
                crate::value::lemma_values_view_index(prior_values.push(v));
                crate::value::lemma_values_view_index(prior_values);
                assert(values_view(prior_values.push(v)) =~= values_view(prior_values).push(v@));
                if let Some(rest) = spec_decode_contents(
                    gtags.subrange(i as int, n as int),
                    bytes@,
                    pos as int,
                ) {
                    assert(values_view(prior_values) + (seq![v@] + rest) =~= values_view(
                        prior_values,
                    ).push(v@) + rest);
                }
            }
        }
        if pos != len {
            return None;
        }
        proof {
            assert(gtags.subrange(n as int, n as int) =~= Seq::<nat>::empty());
            assert(spec_decode_contents(Seq::<nat>::empty(), bytes@, pos as int) == Some(
                Seq::<ValueView>::empty(),
            ));
            assert(values_view(values@) + Seq::<ValueView>::empty() =~= values_view(values@));
        }
        let rec = OwnedRecord { values };
        Some(rec)
    }
}

/// Appends the content bytes of one scalar value to `buf`.
fn push_content(buf: &mut Vec<u8>, v: &OwnedValue)
    requires
        serializable_value(v@),
    ensures
        final(buf)@ == old(buf)@ + spec_content(v@),
{
    match v {
        OwnedValue::Null => {
            proof {
                assert(buf@ =~= buf@ + spec_content(v@));
            }
        },
        OwnedValue::Integer(iv) => {
            let i = *iv;
            let w: usize = if -0x80 <= i && i <= 0x7f {
                1
            } else if -0x8000 <= i && i <= 0x7fff {
                2
            } else if -0x80_0000 <= i && i <= 0x7f_ffff {
                3
            } else if -0x8000_0000 <= i && i <= 0x7fff_ffff {
                4
            } else if -0x8000_0000_0000 <= i && i <= 0x7fff_ffff_ffff {
                6
            } else {
                8
            };
            proof {
                lemma2_to64();
                lemma2_to64_rest();
            }
            let ghost p = pow2((8 * w) as nat) as int;
            let x: u64;
            if i >= 0 {
                x = i as u64;
                proof {
                    assert(i < p);
                    vstd::arithmetic::div_mod::lemma_small_mod(i as nat, pow2((8 * w) as nat));
                    assert((i as int) % p == i as int);
                }
            } else {
                let mag: u64 = ((-(i + 1)) as u64) + 1;
                if w == 8 {
                    x = (u64::MAX - mag) + 1;
                } else {
                    x = pow256(w as u64) - mag;
                }
                proof {
                    vstd::arithmetic::div_mod::lemma_fundamental_div_mod_converse(
                        i as int,
                        p,
                        -1,
                        i + p,
                    );
                    assert((i as int) % p == i + p);
                    assert(x == i + p);
                }
            }
            push_be(buf, x, w);
            proof {
                assert(w as int == int_width(i as int));
                assert(x as nat == ((i as int) % p) as nat);
            }
        },
        OwnedValue::Float(bits) => {
            push_be(buf, *bits, 8);
        },
        OwnedValue::Text(t) => {
            extend_bytes(buf, t.value.as_str().as_bytes());
        },
        OwnedValue::Blob(b) => {
            extend_bytes(buf, b.as_slice());
        },
        OwnedValue::Agg(_) => {
            proof {
                assert(buf@ =~= buf@ + spec_content(v@));
            }
        },
        OwnedValue::Record(_) => {
            proof {
                assert(buf@ =~= buf@ + spec_content(v@));
            }
        },
    }
}

impl OwnedRecord {
    /// Appends the record encoding to `buf`: the header-length varint, one
    /// serial-type varint per value, then each value's content bytes, in
    /// order. Leaves `buf` unchanged and reports the unsupported condition
    /// exactly when the header would not fit its single-byte length varint.
    pub fn serialize(&self, buf: &mut Vec<u8>) -> (r: Result<(), LimboError>)
        requires
            serializable(self@),
        ensures
            header_fits(self@) ==> r is Ok && final(buf)@ == old(buf)@ + spec_serialize(self@),
            !header_fits(self@) ==> r is Err && final(buf)@ == old(buf)@,
    {
        proof {
            lemma_values_view_index(self.values@);
        }
        let n = self.values.len();
        let mut tags: Vec<u64> = Vec::new();
        let mut hsize: usize = 0;
        let mut i: usize = 0;
        proof {
            assert(self@.subrange(0, 0) =~= Seq::<ValueView>::empty());
        }
        while i < n
            invariant
                serializable(self@),
                self@ == values_view(self.values@),
                self@.len() == n,
                n == self.values@.len(),
                forall|j: int| 0 <= j < n ==> self@[j] == crate::value::value_view(
                    self.values@[j],
                ),
                0 <= i <= n,
                tags@.len() == i,
                forall|j: int| 0 <= j < i ==> tags@[j] == spec_serial_type(self@[j]),
                hsize <= 127,
                (if tags_bytes(self@.subrange(0, i as int)).len() <= 126 {
                    hsize == tags_bytes(self@.subrange(0, i as int)).len()
                } else {
                    hsize == 127
                }),
                buf@ == old(buf)@,
            decreases n - i,
        {
            let t = self.values[i].serial_type();
            let vlen = varint_size(t);
            let ghost prefix = self@.subrange(0, i as int);
            proof {
                lemma_tags_bytes_push(prefix, self@[i as int]);
                assert(self@.subrange(0, i as int + 1) =~= prefix.push(self@[i as int]));
            }
            if vlen > 127 - hsize {
                hsize = 127;
            } else {
                hsize = hsize + vlen;
            }
            tags.push(t);
            i = i + 1;
        }
        proof {
            assert(self@.subrange(0, n as int) =~= self@);
        }
        if hsize > 125 {
            return Err(LimboError::NotSupported);
        }
        let h: u64 = (hsize as u64) + 1;
        let ghost start = buf@;
        write_varint(buf, h);
        let mut i: usize = 0;
        proof {
            assert(self@.subrange(0, 0) =~= Seq::<ValueView>::empty());
            assert(buf@ =~= start + varint(h) + tags_bytes(self@.subrange(0, 0)));
        }
        while i < n
            invariant
                self@.len() == n,
                n == self.values@.len(),
                0 <= i <= n,
                tags@.len() == n,
                forall|j: int| 0 <= j < n ==> tags@[j] == spec_serial_type(self@[j]),
                buf@ == start + varint(h) + tags_bytes(self@.subrange(0, i as int)),
            decreases n - i,
        {
            let ghost prefix = self@.subrange(0, i as int);
            write_varint(buf, tags[i]);
            proof {
                lemma_tags_bytes_push(prefix, self@[i as int]);
                assert(self@.subrange(0, i as int + 1) =~= prefix.push(self@[i as int]));
                assert(buf@ =~= start + varint(h) + tags_bytes(self@.subrange(0, i as int + 1)));
            }
            i = i + 1;
        }
        let ghost tagged = start + varint(h) + tags_bytes(self@);
        let mut i: usize = 0;
        proof {
            assert(self@.subrange(0, 0) =~= Seq::<ValueView>::empty());
            assert(buf@ =~= tagged + contents_bytes(self@.subrange(0, 0)));
        }
        while i < n
            invariant
                serializable(self@),
                self@.len() == n,
                n == self.values@.len(),
                forall|j: int| 0 <= j < n ==> self@[j] == crate::value::value_view(
                    self.values@[j],
                ),
                0 <= i <= n,
                buf@ == tagged + contents_bytes(self@.subrange(0, i as int)),
            decreases n - i,
        {
            let ghost prefix = self@.subrange(0, i as int);
            push_content(buf, &self.values[i]);
            proof {
                lemma_contents_bytes_push(prefix, self@[i as int]);
                assert(self@.subrange(0, i as int + 1) =~= prefix.push(self@[i as int]));
                assert(buf@ =~= tagged + contents_bytes(self@.subrange(0, i as int + 1)));
            }
            i = i + 1;
        }
        proof {
            assert(self@.subrange(0, n as int) =~= self@);
            assert(buf@ =~= start + spec_serialize(self@));
        }
        Ok(())
    }
}

} // verus!
