//! Composite types built from other codecs.
//!
//! A fixed-field record is encoded as its fields one after another in
//! declaration order, with no tags: the pair `(A, B)` is the two-field
//! record, and a longer record nests pairs (`(A, (B, C))`), which gives the
//! same bytes. A field without content is `()`, which takes no bytes.
//!
//! A tagged union is encoded as one discriminant byte, the 0-based position
//! of the variant in declaration order, followed by the variant's payload.
//! The discriminant is positional: reordering the variants of a union
//! changes its wire format and breaks data encoded before.
use crate::deserialize::Deserialize;
use crate::endian::Endianness;
use crate::error::{DeserializeError, SerializeError};
use crate::laws::RoundTrip;
use crate::serialize::{encoded_at, Serialize};
use vstd::prelude::*;
use vstd::slice::slice_subrange;

verus! {

impl Serialize for () {
    open spec fn spec_encodable(v: ()) -> bool {
        true
    }

    open spec fn spec_encode(v: (), endian: Endianness) -> Seq<u8> {
        Seq::empty()
    }

    fn serialize_at(&self, buffer: &mut [u8], offset: usize, endian: Endianness) -> (r: Result<
        usize,
        SerializeError,
    >) {
        assert(buffer@.subrange(offset as int, offset as int) =~= Seq::<u8>::empty());
        Ok(0)
    }
}

impl Deserialize for () {
    open spec fn spec_decode(bytes: Seq<u8>, endian: Endianness) -> Option<((), nat)> {
        Some(((), 0))
    }

    fn deserialize(buf: &[u8], endian: Endianness) -> (r: Result<(Self, usize), DeserializeError>) {
        Ok(((), 0))
    }
}

impl RoundTrip for () {
    proof fn lemma_round_trip(v: (), endian: Endianness, rest: Seq<u8>) {
    }

    proof fn lemma_truncated(v: (), endian: Endianness, k: int) {
    }
}

impl<A: Serialize, B: Serialize> Serialize for (A, B) {
    open spec fn spec_encodable(v: (A::V, B::V)) -> bool {
        A::spec_encodable(v.0) && B::spec_encodable(v.1)
    }

    open spec fn spec_encode(v: (A::V, B::V), endian: Endianness) -> Seq<u8> {
        A::spec_encode(v.0, endian) + B::spec_encode(v.1, endian)
    }

    fn serialize_at(&self, buffer: &mut [u8], offset: usize, endian: Endianness) -> (r: Result<
        usize,
        SerializeError,
    >) {
        let len: usize = buffer.len();
        match self.0.serialize_at(buffer, offset, endian) {
            Ok(n) => {
                let ghost mid = buffer@;
                let res = self.1.serialize_at(buffer, offset + n, endian);
                assert(buffer@.subrange(0, offset as int) =~= buffer@.subrange(0, offset + n).subrange(0, offset as int));
                assert(mid.subrange(0, offset as int) =~= mid.subrange(0, offset + n).subrange(0, offset as int));
                match res {
                    Ok(m) => {
                        assert(buffer@.subrange(offset as int, offset + n) =~= buffer@.subrange(0, offset + n).subrange(offset as int, offset + n));
                        assert(mid.subrange(offset as int, offset + n) =~= mid.subrange(0, offset + n).subrange(offset as int, offset + n));
                        assert(buffer@.subrange(offset as int, offset + n + m) =~= buffer@.subrange(offset as int, offset + n) + buffer@.subrange(offset + n, offset + n + m));
                        Ok(n + m)
                    },
                    Err(e) => Err(e),
                }
            },
            Err(e) => Err(e),
        }
    }
}

impl<A: Deserialize, B: Deserialize> Deserialize for (A, B) {
    open spec fn spec_decode(bytes: Seq<u8>, endian: Endianness) -> Option<((A::V, B::V), nat)> {
        match A::spec_decode(bytes, endian) {
            Some((a, n)) => match B::spec_decode(bytes.skip(n as int), endian) {
                Some((b, m)) => Some(((a, b), n + m)),
                None => None,
            },
            None => None,
        }
    }

    fn deserialize(buf: &[u8], endian: Endianness) -> (r: Result<(Self, usize), DeserializeError>) {
        match A::deserialize(buf, endian) {
            Ok((a, n)) => {
                let rest = slice_subrange(buf, n, buf.len());
                assert(rest@ =~= buf@.skip(n as int));
                match B::deserialize(rest, endian) {
                    Ok((b, m)) => Ok(((a, b), n + m)),
                    Err(e) => Err(e),
                }
            },
            Err(e) => Err(e),
        }
    }
}

impl<A: RoundTrip, B: RoundTrip> RoundTrip for (A, B) {
    proof fn lemma_round_trip(v: (<A as DeepView>::V, <B as DeepView>::V), endian: Endianness, rest: Seq<u8>) {
        let ea = A::spec_encode(v.0, endian);
        let tail = B::spec_encode(v.1, endian) + rest;
        let bytes = Self::spec_encode(v, endian) + rest;
        assert(bytes =~= ea + tail);
        A::lemma_round_trip(v.0, endian, tail);
        assert(bytes.skip(ea.len() as int) =~= tail);
        B::lemma_round_trip(v.1, endian, rest);
    }

    proof fn lemma_truncated(v: (<A as DeepView>::V, <B as DeepView>::V), endian: Endianness, k: int) {
        let ea = A::spec_encode(v.0, endian);
        let bytes = Self::spec_encode(v, endian).take(k);
        if k < ea.len() {
            assert(bytes =~= ea.take(k));
            A::lemma_truncated(v.0, endian, k);
        } else {
            let cut = B::spec_encode(v.1, endian).take(k - ea.len());
            assert(bytes =~= ea + cut);
            A::lemma_round_trip(v.0, endian, cut);
            assert(bytes.skip(ea.len() as int) =~= cut);
            B::lemma_truncated(v.1, endian, k - ea.len());
        }
    }
}

/// The bytes of the variant at position `index` of a tagged union whose
/// payload has model `payload`.
pub open spec fn variant_bytes<P: Serialize>(index: u8, payload: P::V, endian: Endianness) -> Seq<u8> {
    seq![index] + P::spec_encode(payload, endian)
}

/// The discriminant at the start of `bytes` of a union with
/// `variant_count` variants, or `None` for a missing or unknown one.
pub open spec fn spec_discriminant(bytes: Seq<u8>, variant_count: nat) -> Option<u8> {
    if bytes.len() >= 1 && bytes[0] < variant_count {
        Some(bytes[0])
    } else {
        None
    }
}

/// Writes the variant at position `index` of a tagged union, with its
/// payload, from `offset` on; the first byte written is `index`.
pub fn serialize_variant<P: Serialize>(
    index: u8,
    payload: &P,
    buffer: &mut [u8],
    offset: usize,
    endian: Endianness,
) -> (r: Result<usize, SerializeError>)
    requires
        offset <= old(buffer)@.len(),
    ensures
        encoded_at(
            old(buffer)@,
            final(buffer)@,
            offset as int,
            P::spec_encodable(payload.deep_view()),
            variant_bytes::<P>(index, payload.deep_view(), endian),
            r,
        ),
        r is Ok ==> final(buffer)@[offset as int] == index,
{
    if offset >= buffer.len() {
        return Err(SerializeError::BufferOverflow);
    }
    match payload.serialize_at(buffer, offset + 1, endian) {
        Ok(size) => {
            let ghost mid = buffer@;
            buffer[offset] = index;
            assert(buffer@.subrange(0, offset as int) =~= mid.subrange(0, offset + 1).subrange(0, offset as int));
            assert(old(buffer)@.subrange(0, offset as int) =~= old(buffer)@.subrange(0, offset + 1).subrange(0, offset as int));
            assert(buffer@.subrange(offset as int, offset + 1 + size) =~= seq![index] + mid.subrange(offset + 1, offset + 1 + size));
            Ok(size + 1)
        },
        Err(e) => {
            assert(buffer@.subrange(0, offset as int) =~= buffer@.subrange(0, offset + 1).subrange(0, offset as int));
            assert(old(buffer)@.subrange(0, offset as int) =~= old(buffer)@.subrange(0, offset + 1).subrange(0, offset as int));
            Err(e)
        },
    }
}

/// Reads the discriminant of a tagged union with `variant_count` variants
/// from the start of `buf`; a missing byte or one naming no variant is
/// `Invalid`. The payload follows the one byte consumed.
pub fn deserialize_discriminant(buf: &[u8], variant_count: usize) -> (r: Result<(u8, usize), DeserializeError>)
    ensures
        match r {
            Ok((d, n)) => spec_discriminant(buf@, variant_count as nat) == Some(d) && n == 1,
            Err(_) => spec_discriminant(buf@, variant_count as nat) is None,
        },
{
    if buf.is_empty() || buf[0] as usize >= variant_count {
        return Err(DeserializeError::Invalid);
    }
    Ok((buf[0], 1))
}

} // verus!
