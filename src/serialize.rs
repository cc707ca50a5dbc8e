//! The encoding direction: values into caller-owned byte buffers.
use crate::endian::Endianness;
use crate::error::SerializeError;
use crate::layout::{
    put_bytes, u16_bytes, u16_to_bytes, u32_bytes, u32_to_bytes, u64_bytes, u64_to_bytes,
};
use vstd::prelude::*;
use vstd::utf8::encode_utf8;

verus! {

/// What a call that encodes `bytes` at `offset` of a buffer promises: it
/// keeps the buffer's length and the bytes before `offset`; it succeeds
/// exactly when the value is encodable and `bytes` fit, and then writes
/// `bytes` at `offset` and returns their count.
pub open spec fn encoded_at(
    before: Seq<u8>,
    after: Seq<u8>,
    offset: int,
    encodable: bool,
    bytes: Seq<u8>,
    r: Result<usize, SerializeError>,
) -> bool {
    &&& after.len() == before.len()
    &&& after.subrange(0, offset) == before.subrange(0, offset)
    &&& (r is Ok <==> encodable && offset + bytes.len() <= before.len())
    &&& (r matches Ok(n) ==> n == bytes.len() && after.subrange(offset, offset + n) == bytes)
}

/// A type whose values can be encoded into bytes.
///
/// The wire form is stated over the value's model (`deep_view`): an integer
/// is its own model, an optional value, a sequence, an array and a text are
/// modelled by `Option`, `Seq` and `Seq<char>`.
pub trait Serialize: DeepView {
    /// Whether a value with model `v` has an encoding (every count in it
    /// fits in four bytes, every array has its length).
    spec fn spec_encodable(v: Self::V) -> bool;

    /// The bytes that encode a value with model `v` in byte order `endian`.
    spec fn spec_encode(v: Self::V, endian: Endianness) -> Seq<u8>;

    /// Writes the encoding of `self` into `buffer` from `offset` on and
    /// returns the number of bytes written.
    fn serialize_at(&self, buffer: &mut [u8], offset: usize, endian: Endianness) -> (r: Result<
        usize,
        SerializeError,
    >)
        requires
            offset <= old(buffer)@.len(),
        ensures
            encoded_at(
                old(buffer)@,
                final(buffer)@,
                offset as int,
                Self::spec_encodable(self.deep_view()),
                Self::spec_encode(self.deep_view(), endian),
                r,
            ),
    ;

    /// Writes the encoding of `self` at the start of `buffer` and returns the
    /// number of bytes written; `BufferOverflow` when it does not fit, or
    /// when a sequence or text in it has more than `u32::MAX` elements.
    fn serialize(&self, buffer: &mut [u8], endian: Endianness) -> (r: Result<
        usize,
        SerializeError,
    >)
        ensures
            encoded_at(
                old(buffer)@,
                final(buffer)@,
                0,
                Self::spec_encodable(self.deep_view()),
                Self::spec_encode(self.deep_view(), endian),
                r,
            ),
    {
        self.serialize_at(buffer, 0, endian)
    }
}

/// Writes the fixed bytes `src` at `offset`, or fails when they do not fit.
fn put_fixed(buffer: &mut [u8], offset: usize, src: &[u8]) -> (r: Result<usize, SerializeError>)
    requires
        offset <= old(buffer)@.len(),
    ensures
        encoded_at(old(buffer)@, final(buffer)@, offset as int, true, src@, r),
{
    if buffer.len() - offset < src.len() {
        return Err(SerializeError::BufferOverflow);
    }
    put_bytes(buffer, offset, src);
    assert(buffer@.subrange(0, offset as int) =~= old(buffer)@.subrange(0, offset as int));
    assert(buffer@.subrange(offset as int, offset + src@.len()) =~= src@);
    Ok(src.len())
}

impl Serialize for u8 {
    open spec fn spec_encodable(v: u8) -> bool {
        true
    }

    open spec fn spec_encode(v: u8, endian: Endianness) -> Seq<u8> {
        seq![v]
    }

    fn serialize_at(&self, buffer: &mut [u8], offset: usize, endian: Endianness) -> (r: Result<
        usize,
        SerializeError,
    >) {
        let b = [*self];
        assert(b@ =~= seq![*self]);
        put_fixed(buffer, offset, &b)
    }
}

impl Serialize for i8 {
    open spec fn spec_encodable(v: i8) -> bool {
        true
    }

    open spec fn spec_encode(v: i8, endian: Endianness) -> Seq<u8> {
        seq![v as u8]
    }

    fn serialize_at(&self, buffer: &mut [u8], offset: usize, endian: Endianness) -> (r: Result<
        usize,
        SerializeError,
    >) {
        let b = [*self as u8];
        assert(b@ =~= seq![*self as u8]);
        put_fixed(buffer, offset, &b)
    }
}

impl Serialize for bool {
    open spec fn spec_encodable(v: bool) -> bool {
        true
    }

    open spec fn spec_encode(v: bool, endian: Endianness) -> Seq<u8> {
        seq![if v { 1u8 } else { 0u8 }]
    }

    fn serialize_at(&self, buffer: &mut [u8], offset: usize, endian: Endianness) -> (r: Result<
        usize,
        SerializeError,
    >) {
        let b = [if *self { 1u8 } else { 0u8 }];
        assert(b@ =~= Self::spec_encode(*self, endian));
        put_fixed(buffer, offset, &b)
    }
}

impl Serialize for u16 {
    open spec fn spec_encodable(v: u16) -> bool {
        true
    }

    open spec fn spec_encode(v: u16, endian: Endianness) -> Seq<u8> {
        u16_bytes(v, endian)
    }

    fn serialize_at(&self, buffer: &mut [u8], offset: usize, endian: Endianness) -> (r: Result<
        usize,
        SerializeError,
    >) {
        put_fixed(buffer, offset, &u16_to_bytes(*self, endian))
    }
}

impl Serialize for i16 {
    open spec fn spec_encodable(v: i16) -> bool {
        true
    }

    open spec fn spec_encode(v: i16, endian: Endianness) -> Seq<u8> {
        u16_bytes(v as u16, endian)
    }

    fn serialize_at(&self, buffer: &mut [u8], offset: usize, endian: Endianness) -> (r: Result<
        usize,
        SerializeError,
    >) {
        put_fixed(buffer, offset, &u16_to_bytes(*self as u16, endian))
    }
}

impl Serialize for u32 {
    open spec fn spec_encodable(v: u32) -> bool {
        true
    }

    open spec fn spec_encode(v: u32, endian: Endianness) -> Seq<u8> {
        u32_bytes(v, endian)
    }

    fn serialize_at(&self, buffer: &mut [u8], offset: usize, endian: Endianness) -> (r: Result<
        usize,
        SerializeError,
    >) {
        put_fixed(buffer, offset, &u32_to_bytes(*self, endian))
    }
}

impl Serialize for i32 {
    open spec fn spec_encodable(v: i32) -> bool {
        true
    }

    open spec fn spec_encode(v: i32, endian: Endianness) -> Seq<u8> {
        u32_bytes(v as u32, endian)
    }

    fn serialize_at(&self, buffer: &mut [u8], offset: usize, endian: Endianness) -> (r: Result<
        usize,
        SerializeError,
    >) {
        put_fixed(buffer, offset, &u32_to_bytes(*self as u32, endian))
    }
}

impl Serialize for u64 {
    open spec fn spec_encodable(v: u64) -> bool {
        true
    }

    open spec fn spec_encode(v: u64, endian: Endianness) -> Seq<u8> {
        u64_bytes(v, endian)
    }

    fn serialize_at(&self, buffer: &mut [u8], offset: usize, endian: Endianness) -> (r: Result<
        usize,
        SerializeError,
    >) {
        put_fixed(buffer, offset, &u64_to_bytes(*self, endian))
    }
}

impl Serialize for i64 {
    open spec fn spec_encodable(v: i64) -> bool {
        true
    }

    open spec fn spec_encode(v: i64, endian: Endianness) -> Seq<u8> {
        u64_bytes(v as u64, endian)
    }

    fn serialize_at(&self, buffer: &mut [u8], offset: usize, endian: Endianness) -> (r: Result<
        usize,
        SerializeError,
    >) {
        put_fixed(buffer, offset, &u64_to_bytes(*self as u64, endian))
    }
}

/// Whether every model in `s` is encodable.
pub open spec fn all_encodable<T: Serialize>(s: Seq<T::V>) -> bool {
    forall|i: int| 0 <= i < s.len() ==> T::spec_encodable(#[trigger] s[i])
}

/// The encodings of the models in `s`, concatenated in order.
pub open spec fn encode_all<T: Serialize>(s: Seq<T::V>, endian: Endianness) -> Seq<u8>
    decreases s.len(),
{
    if s.len() == 0 {
        Seq::empty()
    } else {
        encode_all::<T>(s.drop_last(), endian) + T::spec_encode(s.last(), endian)
    }
}

/// The encoding of a prefix is no longer than the whole.
pub proof fn lemma_encode_all_prefix_len<T: Serialize>(s: Seq<T::V>, i: int, endian: Endianness)
    requires
        0 <= i <= s.len(),
    ensures
        encode_all::<T>(s.take(i), endian).len() <= encode_all::<T>(s, endian).len(),
    decreases s.len() - i,
{
    if i < s.len() {
        lemma_encode_all_prefix_len::<T>(s, i + 1, endian);
        assert(s.take(i + 1).drop_last() =~= s.take(i));
    } else {
        assert(s.take(i) =~= s);
    }
}

/// Single bytes encode as themselves.
pub proof fn lemma_encode_all_bytes(s: Seq<u8>, endian: Endianness)
    ensures
        encode_all::<u8>(s, endian) == s,
    decreases s.len(),
{
    if s.len() > 0 {
        lemma_encode_all_bytes(s.drop_last(), endian);
        assert(s.drop_last().push(s.last()) =~= s);
    }
}

/// Writes the encodings of `items`, one after another, from `offset` on.
fn serialize_items<T: Serialize>(items: &[T], buffer: &mut [u8], offset: usize, endian: Endianness) -> (r:
    Result<usize, SerializeError>)
    requires
        offset <= old(buffer)@.len(),
    ensures
        encoded_at(
            old(buffer)@,
            final(buffer)@,
            offset as int,
            all_encodable::<T>(items.deep_view()),
            encode_all::<T>(items.deep_view(), endian),
            r,
        ),
{
    let ghost s = items.deep_view();
    let len: usize = buffer.len();
    let mut pos: usize = offset;
    let mut i: usize = 0;
    while i < items.len()
        invariant
            s == items.deep_view(),
            len == buffer@.len() == old(buffer)@.len(),
            i <= items@.len(),
            offset <= pos <= len,
            pos == offset + encode_all::<T>(s.take(i as int), endian).len(),
            buffer@.subrange(0, offset as int) == old(buffer)@.subrange(0, offset as int),
            buffer@.subrange(offset as int, pos as int) == encode_all::<T>(s.take(i as int), endian),
            all_encodable::<T>(s.take(i as int)),
        decreases items@.len() - i,
    {
        let ghost before = buffer@;
        let res = items[i].serialize_at(buffer, pos, endian);
        assert(s.take(i + 1).drop_last() =~= s.take(i as int));
        assert(s[i as int] == items@[i as int].deep_view());
        match res {
            Ok(n) => {
                assert(buffer@.subrange(0, pos as int) == before.subrange(0, pos as int));
                assert(buffer@.subrange(0, offset as int) =~= before.subrange(0, pos as int).subrange(0, offset as int));
                assert(buffer@.subrange(offset as int, pos as int) =~= before.subrange(0, pos as int).subrange(offset as int, pos as int));
                assert(buffer@.subrange(offset as int, pos + n) =~= buffer@.subrange(offset as int, pos as int) + buffer@.subrange(pos as int, pos + n));
                assert(all_encodable::<T>(s.take(i + 1))) by {
                    assert forall|k: int| 0 <= k < i + 1 implies T::spec_encodable(#[trigger] s.take(i + 1)[k]) by {
                        if k < i {
                            assert(s.take(i + 1)[k] == s.take(i as int)[k]);
                        }
                    }
                }
                pos = pos + n;
                i = i + 1;
            },
            Err(e) => {
                proof {
                    assert(buffer@.subrange(0, offset as int) =~= buffer@.subrange(0, pos as int).subrange(0, offset as int));
                    assert(before.subrange(0, offset as int) =~= before.subrange(0, pos as int).subrange(0, offset as int));
                    lemma_encode_all_prefix_len::<T>(s, i as int + 1, endian);
                    assert(!T::spec_encodable(s[i as int]) ==> !all_encodable::<T>(s));
                }
                return Err(e);
            },
        }
    }
    assert(s.take(i as int) =~= s);
    assert(buffer@.subrange(offset as int, pos as int) =~= encode_all::<T>(s, endian));
    Ok(pos - offset)
}

impl<T: Serialize> Serialize for Option<T> {
    open spec fn spec_encodable(v: Option<T::V>) -> bool {
        match v {
            Some(x) => T::spec_encodable(x),
            None => true,
        }
    }

    open spec fn spec_encode(v: Option<T::V>, endian: Endianness) -> Seq<u8> {
        match v {
            Some(x) => seq![1u8] + T::spec_encode(x, endian),
            None => seq![0u8],
        }
    }

    fn serialize_at(&self, buffer: &mut [u8], offset: usize, endian: Endianness) -> (r: Result<
        usize,
        SerializeError,
    >) {
        if offset >= buffer.len() {
            return Err(SerializeError::BufferOverflow);
        }
        match self {
            Some(value) => {
                let res = value.serialize_at(buffer, offset + 1, endian);
                match res {
                    Ok(size) => {
                        let ghost mid = buffer@;
                        buffer[offset] = 1;
                        assert(buffer@.subrange(0, offset as int) =~= mid.subrange(0, offset + 1).subrange(0, offset as int));
                        assert(old(buffer)@.subrange(0, offset as int) =~= old(buffer)@.subrange(0, offset + 1).subrange(0, offset as int));
                        assert(buffer@.subrange(offset as int, offset + 1 + size) =~= seq![1u8] + mid.subrange(offset + 1, offset + 1 + size));
                        Ok(size + 1)
                    },
                    Err(e) => {
                        assert(buffer@.subrange(0, offset as int) =~= buffer@.subrange(0, offset + 1).subrange(0, offset as int));
                        assert(old(buffer)@.subrange(0, offset as int) =~= old(buffer)@.subrange(0, offset + 1).subrange(0, offset as int));
                        Err(e)
                    },
                }
            },
            None => {
                let ghost before = buffer@;
                buffer[offset] = 0;
                assert(buffer@.subrange(0, offset as int) =~= before.subrange(0, offset as int));
                assert(buffer@.subrange(offset as int, offset + 1) =~= seq![0u8]);
                Ok(1)
            },
        }
    }
}

/// Writes a four-byte count and then `items`, as a sequence is encoded.
fn serialize_counted<T: Serialize>(items: &[T], buffer: &mut [u8], offset: usize, endian: Endianness) -> (r:
    Result<usize, SerializeError>)
    requires
        offset <= old(buffer)@.len(),
    ensures
        encoded_at(
            old(buffer)@,
            final(buffer)@,
            offset as int,
            items@.len() <= u32::MAX && all_encodable::<T>(items.deep_view()),
            u32_bytes(items@.len() as u32, endian) + encode_all::<T>(items.deep_view(), endian),
            r,
        ),
{
    let len: usize = buffer.len();
    if items.len() > u32::MAX as usize {
        return Err(SerializeError::BufferOverflow);
    }
    let count = items.len() as u32;
    let head = count.serialize_at(buffer, offset, endian);
    match head {
        Ok(n) => {
            let ghost mid = buffer@;
            let res = serialize_items(items, buffer, offset + n, endian);
            match res {
                Ok(m) => {
                    assert(buffer@.subrange(0, offset as int) =~= buffer@.subrange(0, offset + n).subrange(0, offset as int));
                    assert(mid.subrange(0, offset as int) =~= mid.subrange(0, offset + n).subrange(0, offset as int));
                    assert(buffer@.subrange(offset as int, offset + n) =~= buffer@.subrange(0, offset + n).subrange(offset as int, offset + n));
                    assert(mid.subrange(offset as int, offset + n) =~= mid.subrange(0, offset + n).subrange(offset as int, offset + n));
                    assert(buffer@.subrange(offset as int, offset + n + m) =~= buffer@.subrange(offset as int, offset + n) + buffer@.subrange(offset + n, offset + n + m));
                    Ok(n + m)
                },
                Err(e) => {
                    assert(buffer@.subrange(0, offset as int) =~= buffer@.subrange(0, offset + n).subrange(0, offset as int));
                    assert(mid.subrange(0, offset as int) =~= mid.subrange(0, offset + n).subrange(0, offset as int));
                    Err(e)
                },
            }
        },
        Err(e) => Err(e),
    }
}

impl<T: Serialize> Serialize for Vec<T> {
    open spec fn spec_encodable(v: Seq<T::V>) -> bool {
        v.len() <= u32::MAX && all_encodable::<T>(v)
    }

    open spec fn spec_encode(v: Seq<T::V>, endian: Endianness) -> Seq<u8> {
        u32_bytes(v.len() as u32, endian) + encode_all::<T>(v, endian)
    }

    fn serialize_at(&self, buffer: &mut [u8], offset: usize, endian: Endianness) -> (r: Result<
        usize,
        SerializeError,
    >) {
        let items = self.as_slice();
        assert(items.deep_view() =~= self.deep_view());
        serialize_counted(items, buffer, offset, endian)
    }
}

impl<T: Serialize, const N: usize> Serialize for [T; N] {
    open spec fn spec_encodable(v: Seq<T::V>) -> bool {
        v.len() == N && all_encodable::<T>(v)
    }

    open spec fn spec_encode(v: Seq<T::V>, endian: Endianness) -> Seq<u8> {
        encode_all::<T>(v, endian)
    }

    fn serialize_at(&self, buffer: &mut [u8], offset: usize, endian: Endianness) -> (r: Result<
        usize,
        SerializeError,
    >) {
        let items = self.as_slice();
        assert(items.deep_view() =~= self.deep_view());
        serialize_items(items, buffer, offset, endian)
    }
}

impl Serialize for String {
    open spec fn spec_encodable(v: Seq<char>) -> bool {
        encode_utf8(v).len() <= u32::MAX
    }

    open spec fn spec_encode(v: Seq<char>, endian: Endianness) -> Seq<u8> {
        u32_bytes(encode_utf8(v).len() as u32, endian) + encode_utf8(v)
    }

    fn serialize_at(&self, buffer: &mut [u8], offset: usize, endian: Endianness) -> (r: Result<
        usize,
        SerializeError,
    >) {
        let bytes = self.as_str().as_bytes();
        proof {
            lemma_encode_all_bytes(bytes@, endian);
            assert(bytes.deep_view() =~= bytes@);
            assert(all_encodable::<u8>(bytes.deep_view()));
        }
        serialize_counted(bytes, buffer, offset, endian)
    }
}

} // verus!
