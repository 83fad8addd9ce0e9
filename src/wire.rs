//! The byte layout of an encoded frame, and the codec calls that produce and
//! read it.
//!
//! A frame is the record (left samples, right samples, timestamp) in
//! bincode's layout: each sequence is its length as a big-endian `u64`
//! followed by its elements as big-endian `u32`s, and the timestamp is a
//! big-endian `u64`.
use vstd::prelude::*;
use vstd::arithmetic::div_mod::lemma_fundamental_div_mod_converse;

use crate::packet::{BUFFER_SIZE, BYTE_BUFFER_SIZE, PacketView};

verus! {

/// Byte `k` (0 = most significant) of the big-endian form of `x`.
pub open spec fn be_byte(x: u32, k: int) -> u8 {
    if k == 0 {
        (x >> 24u32) as u8
    } else if k == 1 {
        (x >> 16u32) as u8
    } else if k == 2 {
        (x >> 8u32) as u8
    } else {
        x as u8
    }
}

/// The big-endian bytes of each word of `s`, in order.
pub open spec fn words_be(s: Seq<u32>) -> Seq<u8> {
    Seq::new((4 * s.len()) as nat, |j: int| be_byte(s[j / 4], j % 4))
}

/// The eight big-endian bytes of `x`.
pub open spec fn u64_be(x: u64) -> Seq<u8> {
    seq![
        (x >> 56u64) as u8,
        (x >> 48u64) as u8,
        (x >> 40u64) as u8,
        (x >> 32u64) as u8,
        (x >> 24u64) as u8,
        (x >> 16u64) as u8,
        (x >> 8u64) as u8,
        x as u8,
    ]
}

/// The encoding of the record (`l`, `r`, `t`).
pub open spec fn record_bytes(l: Seq<u32>, r: Seq<u32>, t: u64) -> Seq<u8> {
    u64_be(l.len() as u64) + words_be(l) + u64_be(r.len() as u64) + words_be(r) + u64_be(t)
}

/// The encoding of a packet.
pub open spec fn encode_frame(p: PacketView) -> Seq<u8> {
    record_bytes(p.ldata, p.rdata, p.timestamp)
}

/// The big-endian word at byte offset `off` of `b`.
pub open spec fn word_at(b: Seq<u8>, off: int) -> u32 {
    ((b[off] as u32) << 24u32) | ((b[off + 1] as u32) << 16u32) | ((b[off + 2] as u32) << 8u32)
        | (b[off + 3] as u32)
}

/// The big-endian `u64` at byte offset `off` of `b`.
pub open spec fn u64_at(b: Seq<u8>, off: int) -> u64 {
    ((b[off] as u64) << 56u64) | ((b[off + 1] as u64) << 48u64) | ((b[off + 2] as u64) << 40u64)
        | ((b[off + 3] as u64) << 32u64) | ((b[off + 4] as u64) << 24u64) | ((b[off + 5] as u64)
        << 16u64) | ((b[off + 6] as u64) << 8u64) | (b[off + 7] as u64)
}

/// Byte offset of the right channel's length prefix.
pub open spec fn right_prefix_at() -> int {
    8 + 4 * BUFFER_SIZE
}

/// Byte offset of the timestamp.
pub open spec fn timestamp_at() -> int {
    16 + 8 * BUFFER_SIZE
}

/// Whether `b` has a frame's size and both length prefixes announce a full
/// frame of samples.
pub open spec fn frame_ok(b: Seq<u8>) -> bool {
    &&& b.len() == BYTE_BUFFER_SIZE
    &&& u64_at(b, 0) == BUFFER_SIZE
    &&& u64_at(b, right_prefix_at()) == BUFFER_SIZE
}

/// The packet that the bytes `b` hold, if they are a well-formed frame.
pub open spec fn decode_frame(b: Seq<u8>) -> Option<PacketView> {
    if frame_ok(b) {
        Some(
            PacketView {
                ldata: Seq::new(BUFFER_SIZE as nat, |i: int| word_at(b, 8 + 4 * i)),
                rdata: Seq::new(
                    BUFFER_SIZE as nat,
                    |i: int| word_at(b, right_prefix_at() + 8 + 4 * i),
                ),
                timestamp: u64_at(b, timestamp_at()),
            },
        )
    } else {
        None
    }
}

proof fn lemma_word_round(x: u32)
    ensures
        ((((x >> 24u32) as u8) as u32) << 24u32) | ((((x >> 16u32) as u8) as u32) << 16u32) | ((((
        x >> 8u32) as u8) as u32) << 8u32) | ((x as u8) as u32) == x,
{
    assert(((((x >> 24u32) as u8) as u32) << 24u32) | ((((x >> 16u32) as u8) as u32) << 16u32) | ((((
    x >> 8u32) as u8) as u32) << 8u32) | ((x as u8) as u32) == x) by (bit_vector);
}

proof fn lemma_u64_round(x: u64)
    ensures
        u64_at(u64_be(x), 0) == x,
{
    let b = u64_be(x);
    assert(b[0] == (x >> 56u64) as u8 && b[1] == (x >> 48u64) as u8 && b[2] == (x >> 40u64) as u8
        && b[3] == (x >> 32u64) as u8 && b[4] == (x >> 24u64) as u8 && b[5] == (x >> 16u64) as u8
        && b[6] == (x >> 8u64) as u8 && b[7] == x as u8);
    assert(((((x >> 56u64) as u8) as u64) << 56u64) | ((((x >> 48u64) as u8) as u64) << 48u64) | ((((x
        >> 40u64) as u8) as u64) << 40u64) | ((((x >> 32u64) as u8) as u64) << 32u64) | ((((x
        >> 24u64) as u8) as u64) << 24u64) | ((((x >> 16u64) as u8) as u64) << 16u64) | ((((x
        >> 8u64) as u8) as u64) << 8u64) | ((x as u8) as u64) == x) by (bit_vector);
}

/// Reading the eight bytes at `off` of a sequence that holds `u64_be(x)`
/// there gives back `x`.
proof fn lemma_u64_at(b: Seq<u8>, off: int, x: u64)
    requires
        0 <= off,
        off + 8 <= b.len(),
        b.subrange(off, off + 8) == u64_be(x),
    ensures
        u64_at(b, off) == x,
{
    let s = b.subrange(off, off + 8);
    lemma_u64_round(x);
    assert(s[0] == b[off] && s[1] == b[off + 1] && s[2] == b[off + 2] && s[3] == b[off + 3]);
    assert(s[4] == b[off + 4] && s[5] == b[off + 5] && s[6] == b[off + 6] && s[7] == b[off + 7]);
}

/// Reading the words of a sequence that holds `words_be(s)` at `off` gives
/// back `s`.
proof fn lemma_words_at(b: Seq<u8>, off: int, s: Seq<u32>)
    requires
        0 <= off,
        off + 4 * s.len() <= b.len(),
        b.subrange(off, off + 4 * s.len()) == words_be(s),
    ensures
        Seq::new(s.len(), |i: int| word_at(b, off + 4 * i)) == s,
{
    let w = words_be(s);
    assert forall|i: int| 0 <= i < s.len() implies word_at(b, off + 4 * i) == s[i] by {
        assert forall|k: int| 0 <= k < 4 implies b[off + 4 * i + k] == be_byte(s[i], k) by {
            lemma_fundamental_div_mod_converse(4 * i + k, 4, i, k);
            assert(w[4 * i + k] == b[off + 4 * i + k]);
        }
        let x = s[i];
        lemma_word_round(x);
        assert(b[off + 4 * i] == be_byte(x, 0));
        assert(b[off + 4 * i + 1] == be_byte(x, 1));
        assert(b[off + 4 * i + 2] == be_byte(x, 2));
        assert(b[off + 4 * i + 3] == be_byte(x, 3));
    }
    assert(Seq::new(s.len(), |i: int| word_at(b, off + 4 * i)) =~= s);
}

/// Any byte sequence that is the encoding of a record with full-frame
/// channels decodes to that record.
pub proof fn lemma_decode_record(l: Seq<u32>, r: Seq<u32>, t: u64)
    requires
        l.len() == BUFFER_SIZE,
        r.len() == BUFFER_SIZE,
    ensures
        decode_frame(record_bytes(l, r, t)) == Some(PacketView { ldata: l, rdata: r, timestamp: t }),
{
    let b = record_bytes(l, r, t);
    let n = BUFFER_SIZE as int;
    assert(b.len() == BYTE_BUFFER_SIZE);
    assert(b.subrange(0, 8) =~= u64_be(l.len() as u64));
    assert(b.subrange(8, 8 + 4 * n) =~= words_be(l));
    assert(b.subrange(8 + 4 * n, 16 + 4 * n) =~= u64_be(r.len() as u64));
    assert(b.subrange(16 + 4 * n, 16 + 8 * n) =~= words_be(r));
    assert(b.subrange(16 + 8 * n, 24 + 8 * n) =~= u64_be(t));
    lemma_u64_at(b, 0, l.len() as u64);
    lemma_u64_at(b, 8 + 4 * n, r.len() as u64);
    lemma_u64_at(b, 16 + 8 * n, t);
    lemma_words_at(b, 8, l);
    lemma_words_at(b, 16 + 4 * n, r);
    let d = decode_frame(b).unwrap();
    assert(d.ldata =~= l);
    assert(d.rdata =~= r);
}

/// A well-formed frame that is the encoding of some record is the encoding
/// of a record with full-frame channels.
pub proof fn lemma_record_lengths(l: Seq<u32>, r: Seq<u32>, t: u64)
    requires
        frame_ok(record_bytes(l, r, t)),
    ensures
        l.len() == BUFFER_SIZE,
        r.len() == BUFFER_SIZE,
{
    let b = record_bytes(l, r, t);
    assert(b.subrange(0, 8) =~= u64_be(l.len() as u64));
    lemma_u64_at(b, 0, l.len() as u64);
}

/// Reads the big-endian `u64` at byte offset `off` of `b`.
pub fn read_u64_be(b: &[u8], off: usize) -> (r: u64)
    requires
        off + 8 <= b@.len(),
    ensures
        r == u64_at(b@, off as int),
{
    ((b[off] as u64) << 56u64) | ((b[off + 1] as u64) << 48u64) | ((b[off + 2] as u64) << 40u64)
        | ((b[off + 3] as u64) << 32u64) | ((b[off + 4] as u64) << 24u64) | ((b[off + 5] as u64)
        << 16u64) | ((b[off + 6] as u64) << 8u64) | (b[off + 7] as u64)
}

#[verifier::external_type_specification]
#[verifier::external_body]
pub struct ExEncodingError(bincode::rustc_serialize::EncodingError);

#[verifier::external_type_specification]
#[verifier::external_body]
pub struct ExDecodingError(bincode::rustc_serialize::DecodingError);

/// Relies on `bincode::rustc_serialize::encode` with no size limit: a tuple
/// is its fields in order, a sequence is its length as a big-endian `u64`
/// followed by its elements, `u32` and `u64` are big-endian; writing into a
/// `Vec` cannot fail.
#[verifier::external_body]
pub(crate) fn encode_record(l: &Vec<u32>, r: &Vec<u32>, t: u64) -> (res: Result<
    Vec<u8>,
    bincode::rustc_serialize::EncodingError,
>)
    ensures
        res is Ok,
        res->Ok_0@ == record_bytes(l@, r@, t),
{
    bincode::rustc_serialize::encode(&(l, r, t), bincode::SizeLimit::Infinite)
}

/// Relies on `bincode::rustc_serialize::decode` of a `(Vec<u32>, Vec<u32>,
/// u64)`: it reads the layout that `encode` writes, so on bytes whose length
/// prefixes account for all of them it returns the record they encode.
#[verifier::external_body]
pub(crate) fn decode_record(b: &[u8]) -> (res: Result<
    (Vec<u32>, Vec<u32>, u64),
    bincode::rustc_serialize::DecodingError,
>)
    requires
        frame_ok(b@),
    ensures
        res is Ok,
        record_bytes(res->Ok_0.0@, res->Ok_0.1@, res->Ok_0.2) == b@,
{
    bincode::rustc_serialize::decode(b)
}

/// Encoding a valid packet and decoding the bytes gives the packet back.
pub proof fn lemma_round_trip(p: PacketView)
    requires
        p.wf(),
    ensures
        decode_frame(encode_frame(p)) == Some(p),
        encode_frame(p).len() == BYTE_BUFFER_SIZE,
{
    lemma_decode_record(p.ldata, p.rdata, p.timestamp);
}

} // verus!
