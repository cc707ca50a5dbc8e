//! The laws that tie the two directions together, proved for every type.
use crate::compose::{spec_discriminant, variant_bytes};
use crate::deserialize::{decode_items, lemma_decode_items_bytes, lemma_decode_items_stays_none, Deserialize};
use crate::endian::Endianness;
use crate::layout::{
    lemma_i16_bits, lemma_i32_bits, lemma_i64_bits, lemma_i8_bits, lemma_u16_round_trip, lemma_u32_round_trip, lemma_u64_round_trip, u32_bytes};
use crate::error::SerializeError;
use crate::serialize::{all_encodable, encode_all, encoded_at, Serialize};
use vstd::prelude::*;
use vstd::utf8::{encode_utf8, encode_utf8_decode_utf8, encode_utf8_valid_utf8, valid_utf8};

verus! {

/// A type whose decoder reads back exactly what its encoder writes.
pub trait RoundTrip: Serialize + Deserialize {
    /// Decoding the encoding of `v`, followed by any bytes, yields `v` and
    /// the length of the encoding.
    proof fn lemma_round_trip(v: <Self as DeepView>::V, endian: Endianness, rest: Seq<u8>)
        requires
            Self::spec_encodable(v),
        ensures
            Self::spec_decode(Self::spec_encode(v, endian) + rest, endian) == Some(
                (v, Self::spec_encode(v, endian).len()),
            ),
    ;

    /// Decoding a strict prefix of the encoding of `v` fails.
    proof fn lemma_truncated(v: <Self as DeepView>::V, endian: Endianness, k: int)
        requires
            Self::spec_encodable(v),
            0 <= k < Self::spec_encode(v, endian).len(),
        ensures
            Self::spec_decode(Self::spec_encode(v, endian).take(k), endian) is None,
    ;
}

impl RoundTrip for u8 {
    proof fn lemma_round_trip(v: u8, endian: Endianness, rest: Seq<u8>) {
        assert((seq![v] + rest)[0] == v);
    }

    proof fn lemma_truncated(v: u8, endian: Endianness, k: int) {
    }
}

impl RoundTrip for i8 {
    proof fn lemma_round_trip(v: i8, endian: Endianness, rest: Seq<u8>) {
        assert((seq![v as u8] + rest)[0] == v as u8);
        lemma_i8_bits(v);
    }

    proof fn lemma_truncated(v: i8, endian: Endianness, k: int) {
    }
}

impl RoundTrip for bool {
    proof fn lemma_round_trip(v: bool, endian: Endianness, rest: Seq<u8>) {
        let b: u8 = if v { 1 } else { 0 };
        assert((seq![b] + rest)[0] == b);
    }

    proof fn lemma_truncated(v: bool, endian: Endianness, k: int) {
    }
}

impl RoundTrip for u16 {
    proof fn lemma_round_trip(v: u16, endian: Endianness, rest: Seq<u8>) {
        lemma_u16_round_trip(v, endian, rest);
    }

    proof fn lemma_truncated(v: u16, endian: Endianness, k: int) {
        lemma_u16_round_trip(v, endian, Seq::empty());
    }
}

impl RoundTrip for i16 {
    proof fn lemma_round_trip(v: i16, endian: Endianness, rest: Seq<u8>) {
        lemma_u16_round_trip(v as u16, endian, rest);
        lemma_i16_bits(v);
    }

    proof fn lemma_truncated(v: i16, endian: Endianness, k: int) {
        lemma_u16_round_trip(v as u16, endian, Seq::empty());
    }
}

impl RoundTrip for u32 {
    proof fn lemma_round_trip(v: u32, endian: Endianness, rest: Seq<u8>) {
        lemma_u32_round_trip(v, endian, rest);
    }

    proof fn lemma_truncated(v: u32, endian: Endianness, k: int) {
        lemma_u32_round_trip(v, endian, Seq::empty());
    }
}

impl RoundTrip for i32 {
    proof fn lemma_round_trip(v: i32, endian: Endianness, rest: Seq<u8>) {
        lemma_u32_round_trip(v as u32, endian, rest);
        lemma_i32_bits(v);
    }

    proof fn lemma_truncated(v: i32, endian: Endianness, k: int) {
        lemma_u32_round_trip(v as u32, endian, Seq::empty());
    }
}

impl RoundTrip for u64 {
    proof fn lemma_round_trip(v: u64, endian: Endianness, rest: Seq<u8>) {
        lemma_u64_round_trip(v, endian, rest);
    }

    proof fn lemma_truncated(v: u64, endian: Endianness, k: int) {
        lemma_u64_round_trip(v, endian, Seq::empty());
    }
}

impl RoundTrip for i64 {
    proof fn lemma_round_trip(v: i64, endian: Endianness, rest: Seq<u8>) {
        lemma_u64_round_trip(v as u64, endian, rest);
        lemma_i64_bits(v);
    }

    proof fn lemma_truncated(v: i64, endian: Endianness, k: int) {
        lemma_u64_round_trip(v as u64, endian, Seq::empty());
    }
}

/// Decoding the concatenated encodings of `s`, followed by any bytes,
/// yields `s` and the length of the concatenation.
pub proof fn lemma_items_round_trip<T: RoundTrip>(s: Seq<<T as DeepView>::V>, endian: Endianness, rest: Seq<u8>)
    requires
        all_encodable::<T>(s),
    ensures
        decode_items::<T>(encode_all::<T>(s, endian) + rest, s.len(), endian) == Some(
            (s, encode_all::<T>(s, endian).len()),
        ),
    decreases s.len(),
{
    if s.len() == 0 {
        assert(s =~= Seq::<<T as DeepView>::V>::empty());
    } else {
        let p = s.drop_last();
        let last = s.last();
        let head = encode_all::<T>(p, endian);
        let tail = T::spec_encode(last, endian) + rest;
        let bytes = encode_all::<T>(s, endian) + rest;
        assert(all_encodable::<T>(p)) by {
            assert forall|i: int| 0 <= i < p.len() implies T::spec_encodable(#[trigger] p[i]) by {
                assert(p[i] == s[i]);
            }
        }
        assert(T::spec_encodable(s[s.len() - 1]));
        assert(bytes =~= head + tail);
        lemma_items_round_trip::<T>(p, endian, tail);
        assert(bytes.skip(head.len() as int) =~= tail);
        T::lemma_round_trip(last, endian, rest);
        assert(p.push(last) =~= s);
    }
}

/// Decoding a strict prefix of the concatenated encodings of `s` as
/// `s.len()` values fails.
pub proof fn lemma_items_truncated<T: RoundTrip>(s: Seq<<T as DeepView>::V>, endian: Endianness, k: int)
    requires
        all_encodable::<T>(s),
        0 <= k < encode_all::<T>(s, endian).len(),
    ensures
        decode_items::<T>(encode_all::<T>(s, endian).take(k), s.len(), endian) is None,
    decreases s.len(),
{
    let p = s.drop_last();
    let last = s.last();
    let head = encode_all::<T>(p, endian);
    let whole = encode_all::<T>(s, endian);
    assert(all_encodable::<T>(p)) by {
        assert forall|i: int| 0 <= i < p.len() implies T::spec_encodable(#[trigger] p[i]) by {
            assert(p[i] == s[i]);
        }
    }
    assert(T::spec_encodable(s[s.len() - 1]));
    if k < head.len() {
        lemma_items_truncated::<T>(p, endian, k);
        assert(whole.take(k) =~= head.take(k));
        lemma_decode_items_stays_none::<T>(whole.take(k), p.len(), s.len(), endian);
    } else {
        let cut = T::spec_encode(last, endian).take(k - head.len());
        assert(whole.take(k) =~= head + cut);
        lemma_items_round_trip::<T>(p, endian, cut);
        assert(whole.take(k).skip(head.len() as int) =~= cut);
        T::lemma_truncated(last, endian, k - head.len());
    }
}

impl<T: RoundTrip> RoundTrip for Option<T> {
    proof fn lemma_round_trip(v: Option<<T as DeepView>::V>, endian: Endianness, rest: Seq<u8>) {
        match v {
            Some(x) => {
                let bytes = Self::spec_encode(v, endian) + rest;
                assert(bytes.skip(1) =~= T::spec_encode(x, endian) + rest);
                T::lemma_round_trip(x, endian, rest);
            },
            None => {
                assert((seq![0u8] + rest)[0] == 0);
            },
        }
    }

    proof fn lemma_truncated(v: Option<<T as DeepView>::V>, endian: Endianness, k: int) {
        match v {
            Some(x) => {
                if k > 0 {
                    let bytes = Self::spec_encode(v, endian).take(k);
                    assert(bytes[0] == 1);
                    assert(bytes.skip(1) =~= T::spec_encode(x, endian).take(k - 1));
                    T::lemma_truncated(x, endian, k - 1);
                }
            },
            None => {},
        }
    }
}

impl<T: RoundTrip> RoundTrip for Vec<T> {
    proof fn lemma_round_trip(v: Seq<<T as DeepView>::V>, endian: Endianness, rest: Seq<u8>) {
        let body = encode_all::<T>(v, endian);
        let bytes = Self::spec_encode(v, endian) + rest;
        lemma_u32_round_trip(v.len() as u32, endian, body + rest);
        assert(bytes =~= u32_bytes(v.len() as u32, endian) + (body + rest));
        assert(bytes.skip(4) =~= body + rest);
        lemma_items_round_trip::<T>(v, endian, rest);
    }

    proof fn lemma_truncated(v: Seq<<T as DeepView>::V>, endian: Endianness, k: int) {
        let body = encode_all::<T>(v, endian);
        let bytes = Self::spec_encode(v, endian).take(k);
        lemma_u32_round_trip(v.len() as u32, endian, body);
        if k >= 4 {
            lemma_u32_round_trip(v.len() as u32, endian, body.take(k - 4));
            assert(bytes =~= u32_bytes(v.len() as u32, endian) + body.take(k - 4));
            assert(bytes.skip(4) =~= body.take(k - 4));
            lemma_items_truncated::<T>(v, endian, k - 4);
        }
    }
}

impl<T: RoundTrip, const N: usize> RoundTrip for [T; N] {
    proof fn lemma_round_trip(v: Seq<<T as DeepView>::V>, endian: Endianness, rest: Seq<u8>) {
        lemma_items_round_trip::<T>(v, endian, rest);
    }

    proof fn lemma_truncated(v: Seq<<T as DeepView>::V>, endian: Endianness, k: int) {
        lemma_items_truncated::<T>(v, endian, k);
    }
}

impl RoundTrip for String {
    proof fn lemma_round_trip(v: Seq<char>, endian: Endianness, rest: Seq<u8>) {
        let body = encode_utf8(v);
        let bytes = Self::spec_encode(v, endian) + rest;
        lemma_u32_round_trip(body.len() as u32, endian, body + rest);
        assert(bytes =~= u32_bytes(body.len() as u32, endian) + (body + rest));
        assert(bytes.subrange(4, 4 + body.len() as int) =~= body);
        encode_utf8_valid_utf8(v);
        encode_utf8_decode_utf8(v);
    }

    proof fn lemma_truncated(v: Seq<char>, endian: Endianness, k: int) {
        let body = encode_utf8(v);
        let bytes = Self::spec_encode(v, endian).take(k);
        if k >= 4 {
            lemma_u32_round_trip(body.len() as u32, endian, body.take(k - 4));
            assert(bytes =~= u32_bytes(body.len() as u32, endian) + body.take(k - 4));
        }
    }
}

/// Round trip: when `serialize` writes `v` into a buffer and reports `n`
/// bytes, decoding those `n` bytes with the same byte order gives back `v`
/// and reports `n` bytes consumed.
pub proof fn lemma_round_trip<T: RoundTrip>(
    v: T,
    endian: Endianness,
    before: Seq<u8>,
    after: Seq<u8>,
    n: usize,
)
    requires
        encoded_at(
            before,
            after,
            0,
            T::spec_encodable(v.deep_view()),
            T::spec_encode(v.deep_view(), endian),
            Ok(n),
        ),
    ensures
        T::spec_decode(after.take(n as int), endian) == Some((v.deep_view(), n as nat)),
{
    let bytes = T::spec_encode(v.deep_view(), endian);
    T::lemma_round_trip(v.deep_view(), endian, Seq::empty());
    assert(after.take(n as int) =~= after.subrange(0, n as int));
    assert(bytes + Seq::empty() =~= bytes);
}

/// Determinism: two encodings of one value with one byte order, into
/// buffers of one length, have the same outcome and write the same bytes.
pub proof fn lemma_deterministic<T: Serialize>(
    v: T,
    endian: Endianness,
    before1: Seq<u8>,
    after1: Seq<u8>,
    r1: Result<usize, SerializeError>,
    before2: Seq<u8>,
    after2: Seq<u8>,
    r2: Result<usize, SerializeError>,
)
    requires
        before1.len() == before2.len(),
        encoded_at(
            before1,
            after1,
            0,
            T::spec_encodable(v.deep_view()),
            T::spec_encode(v.deep_view(), endian),
            r1,
        ),
        encoded_at(
            before2,
            after2,
            0,
            T::spec_encodable(v.deep_view()),
            T::spec_encode(v.deep_view(), endian),
            r2,
        ),
    ensures
        r1 is Ok <==> r2 is Ok,
        r1 matches Ok(n) ==> r2 == Ok::<usize, SerializeError>(n) && after1.take(n as int) == after2.take(n as int),
{
    match (r1, r2) {
        (Ok(n), _) => {
            assert(after1.take(n as int) =~= after1.subrange(0, n as int));
            assert(after2.take(n as int) =~= after2.subrange(0, n as int));
        },
        _ => {},
    }
}

/// Truncation safety: decoding any strict prefix of the encoding of `v`
/// fails with no value.
pub proof fn lemma_truncation_safety<T: RoundTrip>(v: T, endian: Endianness, k: int)
    requires
        T::spec_encodable(v.deep_view()),
        0 <= k < T::spec_encode(v.deep_view(), endian).len(),
    ensures
        T::spec_decode(T::spec_encode(v.deep_view(), endian).take(k), endian) is None,
{
    T::lemma_truncated(v.deep_view(), endian, k);
}

/// Overflow safety: encoding into a buffer shorter than the encoding fails
/// with `BufferOverflow` and leaves the buffer's length alone.
pub proof fn lemma_overflow_safety<T: Serialize>(
    v: T,
    endian: Endianness,
    before: Seq<u8>,
    after: Seq<u8>,
    r: Result<usize, SerializeError>,
)
    requires
        encoded_at(
            before,
            after,
            0,
            T::spec_encodable(v.deep_view()),
            T::spec_encode(v.deep_view(), endian),
            r,
        ),
        before.len() < T::spec_encode(v.deep_view(), endian).len(),
    ensures
        r matches Err(SerializeError::BufferOverflow),
        after.len() == before.len(),
{

}

/// Empty containers: an empty sequence and an empty text encode as a zero
/// count and nothing else, and decode back to empty containers.
pub proof fn lemma_empty_containers<T: RoundTrip>(endian: Endianness)
    ensures
        <Vec<T>>::spec_encode(Seq::empty(), endian) == seq![0u8, 0u8, 0u8, 0u8],
        <Vec<T>>::spec_decode(seq![0u8, 0u8, 0u8, 0u8], endian) == Some((Seq::<<T as DeepView>::V>::empty(), 4nat)),
        String::spec_encode(Seq::empty(), endian) == seq![0u8, 0u8, 0u8, 0u8],
        String::spec_decode(seq![0u8, 0u8, 0u8, 0u8], endian) == Some((Seq::<char>::empty(), 4nat)),
{
    let zero: u32 = 0;
    assert(zero as u8 == 0 && (zero >> 8u32) as u8 == 0 && (zero >> 16u32) as u8 == 0 && (zero >> 24u32) as u8 == 0) by (bit_vector)
        requires
            zero == 0,
    ;
    assert(u32_bytes(0, endian) =~= seq![0u8, 0u8, 0u8, 0u8]);
    assert(encode_all::<T>(Seq::empty(), endian) =~= Seq::<u8>::empty());
    assert(<Vec<T>>::spec_encode(Seq::empty(), endian) =~= seq![0u8, 0u8, 0u8, 0u8]);
    <Vec<T>>::lemma_round_trip(Seq::empty(), endian, Seq::empty());
    assert(seq![0u8, 0u8, 0u8, 0u8] + Seq::<u8>::empty() =~= seq![0u8, 0u8, 0u8, 0u8]);
    assert(encode_utf8(Seq::empty()) =~= Seq::<u8>::empty());
    assert(String::spec_encode(Seq::empty(), endian) =~= seq![0u8, 0u8, 0u8, 0u8]);
    String::lemma_round_trip(Seq::empty(), endian, Seq::empty());
}

/// UTF-8 gate: a counted run of bytes always decodes as a byte sequence,
/// and decodes as a text exactly when the bytes are well-formed UTF-8.
pub proof fn lemma_utf8_gate(payload: Seq<u8>, endian: Endianness)
    requires
        payload.len() <= u32::MAX,
    ensures
        <Vec<u8>>::spec_decode(u32_bytes(payload.len() as u32, endian) + payload, endian) == Some(
            (payload, payload.len() + 4),
        ),
        String::spec_decode(u32_bytes(payload.len() as u32, endian) + payload, endian) is Some
            <==> valid_utf8(payload),
{
    let bytes = u32_bytes(payload.len() as u32, endian) + payload;
    lemma_u32_round_trip(payload.len() as u32, endian, payload);
    assert(bytes.skip(4) =~= payload);
    lemma_decode_items_bytes(payload, payload.len(), endian);
    assert(payload.take(payload.len() as int) =~= payload);
    assert(bytes.subrange(4, 4 + payload.len() as int) =~= payload);
}

/// Tagged unions: the first byte of a variant is its position, whatever
/// the payload, and decoding the discriminant and then the payload of the
/// bytes of a variant gives back the position and the payload.
pub proof fn lemma_variant_round_trip<P: RoundTrip>(
    index: u8,
    payload: P,
    variant_count: nat,
    endian: Endianness,
    rest: Seq<u8>,
)
    requires
        index < variant_count,
        P::spec_encodable(payload.deep_view()),
    ensures
        variant_bytes::<P>(index, payload.deep_view(), endian)[0] == index,
        spec_discriminant(variant_bytes::<P>(index, payload.deep_view(), endian) + rest, variant_count)
            == Some(index),
        P::spec_decode((variant_bytes::<P>(index, payload.deep_view(), endian) + rest).skip(1), endian)
            == Some((payload.deep_view(), P::spec_encode(payload.deep_view(), endian).len())),
{
    let bytes = variant_bytes::<P>(index, payload.deep_view(), endian) + rest;
    assert(bytes.skip(1) =~= P::spec_encode(payload.deep_view(), endian) + rest);
    P::lemma_round_trip(payload.deep_view(), endian, rest);
}

} // verus!
