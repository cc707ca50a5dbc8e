//! The decoding direction: byte slices back into values.
use crate::endian::Endianness;
use crate::error::DeserializeError;
use crate::layout::{get_u16, get_u32, get_u64, u16_from, u32_from, u64_from};
use vstd::prelude::*;
use vstd::slice::slice_subrange;
use vstd::utf8::{decode_utf8, encode_utf8, valid_utf8};

verus! {

/// What a decoding call promises: it succeeds exactly when the model
/// decoding `d` does, with the value it names and the bytes it consumed.
pub open spec fn decoded_as<T: DeepView>(
    r: Result<(T, usize), DeserializeError>,
    d: Option<(T::V, nat)>,
) -> bool {
    match r {
        Ok((v, n)) => d == Some((v.deep_view(), n as nat)),
        Err(_) => d is None,
    }
}

/// A type whose values can be decoded from bytes.
pub trait Deserialize: DeepView + Sized {
    /// The model of the value at the start of `bytes` and the number of
    /// bytes it takes, or `None` when `bytes` do not start with one.
    spec fn spec_decode(bytes: Seq<u8>, endian: Endianness) -> Option<(Self::V, nat)>;

    /// Reads a value from the start of `buf`; returns it with the number of
    /// bytes consumed, or `Invalid`.
    fn deserialize(buf: &[u8], endian: Endianness) -> (r: Result<(Self, usize), DeserializeError>)
        ensures
            decoded_as(r, Self::spec_decode(buf@, endian)),
            r matches Ok((_, n)) ==> n <= buf@.len(),
    ;
}

impl Deserialize for u8 {
    open spec fn spec_decode(bytes: Seq<u8>, endian: Endianness) -> Option<(u8, nat)> {
        if bytes.len() < 1 {
            None
        } else {
            Some((bytes[0], 1))
        }
    }

    fn deserialize(buf: &[u8], endian: Endianness) -> (r: Result<(Self, usize), DeserializeError>) {
        if buf.is_empty() {
            return Err(DeserializeError::Invalid);
        }
        Ok((buf[0], 1))
    }
}

impl Deserialize for i8 {
    open spec fn spec_decode(bytes: Seq<u8>, endian: Endianness) -> Option<(i8, nat)> {
        if bytes.len() < 1 {
            None
        } else {
            Some((bytes[0] as i8, 1))
        }
    }

    fn deserialize(buf: &[u8], endian: Endianness) -> (r: Result<(Self, usize), DeserializeError>) {
        if buf.is_empty() {
            return Err(DeserializeError::Invalid);
        }
        Ok((buf[0] as i8, 1))
    }
}

impl Deserialize for bool {
    /// Any non-zero byte reads as `true`.
    open spec fn spec_decode(bytes: Seq<u8>, endian: Endianness) -> Option<(bool, nat)> {
        if bytes.len() < 1 {
            None
        } else {
            Some((bytes[0] != 0, 1))
        }
    }

    fn deserialize(buf: &[u8], endian: Endianness) -> (r: Result<(Self, usize), DeserializeError>) {
        if buf.is_empty() {
            return Err(DeserializeError::Invalid);
        }
        Ok((buf[0] != 0, 1))
    }
}

impl Deserialize for u16 {
    open spec fn spec_decode(bytes: Seq<u8>, endian: Endianness) -> Option<(u16, nat)> {
        if bytes.len() < 2 {
            None
        } else {
            Some((u16_from(bytes, endian), 2))
        }
    }

    fn deserialize(buf: &[u8], endian: Endianness) -> (r: Result<(Self, usize), DeserializeError>) {
        if buf.len() < 2 {
            return Err(DeserializeError::Invalid);
        }
        assert(buf@.skip(0) =~= buf@);
        Ok((get_u16(buf, 0, endian), 2))
    }
}

impl Deserialize for i16 {
    open spec fn spec_decode(bytes: Seq<u8>, endian: Endianness) -> Option<(i16, nat)> {
        if bytes.len() < 2 {
            None
        } else {
            Some((u16_from(bytes, endian) as i16, 2))
        }
    }

    fn deserialize(buf: &[u8], endian: Endianness) -> (r: Result<(Self, usize), DeserializeError>) {
        if buf.len() < 2 {
            return Err(DeserializeError::Invalid);
        }
        assert(buf@.skip(0) =~= buf@);
        Ok((get_u16(buf, 0, endian) as i16, 2))
    }
}

impl Deserialize for u32 {
    open spec fn spec_decode(bytes: Seq<u8>, endian: Endianness) -> Option<(u32, nat)> {
        if bytes.len() < 4 {
            None
        } else {
            Some((u32_from(bytes, endian), 4))
        }
    }

    fn deserialize(buf: &[u8], endian: Endianness) -> (r: Result<(Self, usize), DeserializeError>) {
        if buf.len() < 4 {
            return Err(DeserializeError::Invalid);
        }
        assert(buf@.skip(0) =~= buf@);
        Ok((get_u32(buf, 0, endian), 4))
    }
}

impl Deserialize for i32 {
    open spec fn spec_decode(bytes: Seq<u8>, endian: Endianness) -> Option<(i32, nat)> {
        if bytes.len() < 4 {
            None
        } else {
            Some((u32_from(bytes, endian) as i32, 4))
        }
    }

    fn deserialize(buf: &[u8], endian: Endianness) -> (r: Result<(Self, usize), DeserializeError>) {
        if buf.len() < 4 {
            return Err(DeserializeError::Invalid);
        }
        assert(buf@.skip(0) =~= buf@);
        Ok((get_u32(buf, 0, endian) as i32, 4))
    }
}

impl Deserialize for u64 {
    open spec fn spec_decode(bytes: Seq<u8>, endian: Endianness) -> Option<(u64, nat)> {
        if bytes.len() < 8 {
            None
        } else {
            Some((u64_from(bytes, endian), 8))
        }
    }

    fn deserialize(buf: &[u8], endian: Endianness) -> (r: Result<(Self, usize), DeserializeError>) {
        if buf.len() < 8 {
            return Err(DeserializeError::Invalid);
        }
        assert(buf@.skip(0) =~= buf@);
        Ok((get_u64(buf, 0, endian), 8))
    }
}

impl Deserialize for i64 {
    open spec fn spec_decode(bytes: Seq<u8>, endian: Endianness) -> Option<(i64, nat)> {
        if bytes.len() < 8 {
            None
        } else {
            Some((u64_from(bytes, endian) as i64, 8))
        }
    }

    fn deserialize(buf: &[u8], endian: Endianness) -> (r: Result<(Self, usize), DeserializeError>) {
        if buf.len() < 8 {
            return Err(DeserializeError::Invalid);
        }
        assert(buf@.skip(0) =~= buf@);
        Ok((get_u64(buf, 0, endian) as i64, 8))
    }
}

/// The models of `count` values decoded one after another from the start
/// of `bytes`, with the number of bytes they take together.
pub open spec fn decode_items<T: Deserialize>(bytes: Seq<u8>, count: nat, endian: Endianness) -> Option<
    (Seq<T::V>, nat),
>
    decreases count,
{
    if count == 0 {
        Some((Seq::empty(), 0))
    } else {
        match decode_items::<T>(bytes, (count - 1) as nat, endian) {
            Some((vs, n)) => match T::spec_decode(bytes.skip(n as int), endian) {
                Some((v, m)) => Some((vs.push(v), n + m)),
                None => None,
            },
            None => None,
        }
    }
}

/// Once too few values can be decoded, more cannot be either.
pub proof fn lemma_decode_items_stays_none<T: Deserialize>(
    bytes: Seq<u8>,
    k: nat,
    count: nat,
    endian: Endianness,
)
    requires
        k <= count,
        decode_items::<T>(bytes, k, endian) is None,
    ensures
        decode_items::<T>(bytes, count, endian) is None,
    decreases count - k,
{
    if k < count {
        lemma_decode_items_stays_none::<T>(bytes, k + 1, count, endian);
    }
}

/// Reads `count` values one after another from `offset` of `buf`, growing
/// the result one value at a time.
fn deserialize_items<T: Deserialize>(buf: &[u8], offset: usize, count: usize, endian: Endianness) -> (r:
    Result<(Vec<T>, usize), DeserializeError>)
    requires
        offset <= buf@.len(),
    ensures
        match r {
            Ok((items, n)) => offset + n <= buf@.len() && decode_items::<T>(
                buf@.skip(offset as int),
                count as nat,
                endian,
            ) == Some((items.deep_view(), n as nat)),
            Err(_) => decode_items::<T>(buf@.skip(offset as int), count as nat, endian) is None,
        },
{
    let ghost bytes = buf@.skip(offset as int);
    let len: usize = buf.len();
    let mut items: Vec<T> = Vec::new();
    let mut pos: usize = offset;
    let mut i: usize = 0;
    while i < count
        invariant
            len == buf@.len(),
            bytes == buf@.skip(offset as int),
            i <= count,
            offset <= pos <= len,
            decode_items::<T>(bytes, i as nat, endian) == Some((items.deep_view(), (pos - offset) as nat)),
        decreases count - i,
    {
        let rest = slice_subrange(buf, pos, len);
        assert(rest@ =~= bytes.skip(pos - offset));
        match T::deserialize(rest, endian) {
            Ok((v, n)) => {
                let ghost old_items = items.deep_view();
                items.push(v);
                assert(items.deep_view() =~= old_items.push(v.deep_view()));
                pos = pos + n;
                i = i + 1;
            },
            Err(e) => {
                proof {
                    assert(decode_items::<T>(bytes, (i + 1) as nat, endian) is None);
                    lemma_decode_items_stays_none::<T>(bytes, (i + 1) as nat, count as nat, endian);
                }
                return Err(e);
            },
        }
    }
    Ok((items, pos - offset))
}

impl<T: Deserialize> Deserialize for Option<T> {
    /// A presence byte other than 0 or 1 is rejected.
    open spec fn spec_decode(bytes: Seq<u8>, endian: Endianness) -> Option<(Option<T::V>, nat)> {
        if bytes.len() < 1 {
            None
        } else if bytes[0] == 0 {
            Some((None, 1))
        } else if bytes[0] == 1 {
            match T::spec_decode(bytes.skip(1), endian) {
                Some((v, n)) => Some((Some(v), n + 1)),
                None => None,
            }
        } else {
            None
        }
    }

    fn deserialize(buf: &[u8], endian: Endianness) -> (r: Result<(Self, usize), DeserializeError>) {
        if buf.is_empty() {
            return Err(DeserializeError::Invalid);
        }
        match buf[0] {
            0 => Ok((None, 1)),
            1 => {
                let rest = slice_subrange(buf, 1, buf.len());
                assert(rest@ =~= buf@.skip(1));
                match T::deserialize(rest, endian) {
                    Ok((value, size)) => Ok((Some(value), size + 1)),
                    Err(e) => Err(e),
                }
            },
            _ => Err(DeserializeError::Invalid),
        }
    }
}

/// The count that starts an encoded sequence, with the models that follow it.
pub open spec fn decode_counted<T: Deserialize>(bytes: Seq<u8>, endian: Endianness) -> Option<
    (Seq<T::V>, nat),
> {
    if bytes.len() < 4 {
        None
    } else {
        match decode_items::<T>(bytes.skip(4), u32_from(bytes, endian) as nat, endian) {
            Some((vs, n)) => Some((vs, n + 4)),
            None => None,
        }
    }
}

impl<T: Deserialize> Deserialize for Vec<T> {
    open spec fn spec_decode(bytes: Seq<u8>, endian: Endianness) -> Option<(Seq<T::V>, nat)> {
        decode_counted::<T>(bytes, endian)
    }

    fn deserialize(buf: &[u8], endian: Endianness) -> (r: Result<(Self, usize), DeserializeError>) {
        if buf.len() < 4 {
            return Err(DeserializeError::Invalid);
        }
        assert(buf@.skip(0) =~= buf@);
        let count = get_u32(buf, 0, endian) as usize;
        match deserialize_items::<T>(buf, 4, count, endian) {
            Ok((items, n)) => Ok((items, n + 4)),
            Err(e) => Err(e),
        }
    }
}

/// Relies on `TryFrom<Vec<T>>` for arrays: it succeeds exactly when the
/// vector has `N` elements, and the array then holds them in order.
#[verifier::external_body]
fn vec_into_array<T, const N: usize>(v: Vec<T>) -> (r: Option<[T; N]>)
    ensures
        r is Some <==> v@.len() == N,
        r matches Some(a) ==> a@ == v@,
{
    <[T; N]>::try_from(v).ok()
}

impl<T: Deserialize, const N: usize> Deserialize for [T; N] {
    /// No count is read: the length is part of the type.
    open spec fn spec_decode(bytes: Seq<u8>, endian: Endianness) -> Option<(Seq<T::V>, nat)> {
        decode_items::<T>(bytes, N as nat, endian)
    }

    fn deserialize(buf: &[u8], endian: Endianness) -> (r: Result<(Self, usize), DeserializeError>) {
        assert(buf@.skip(0) =~= buf@);
        match deserialize_items::<T>(buf, 0, N, endian) {
            Ok((items, n)) => {
                proof {
                    lemma_decode_items_len::<T>(buf@, N as nat, endian);
                }
                let ghost model = items.deep_view();
                match vec_into_array::<T, N>(items) {
                    Some(a) => {
                        assert(a.deep_view() =~= model);
                        Ok((a, n))
                    },
                    None => Err(DeserializeError::Invalid),
                }
            },
            Err(e) => Err(e),
        }
    }
}

/// Decoding `count` values yields `count` models.
pub proof fn lemma_decode_items_len<T: Deserialize>(bytes: Seq<u8>, count: nat, endian: Endianness)
    ensures
        decode_items::<T>(bytes, count, endian) matches Some((vs, _)) ==> vs.len() == count,
    decreases count,
{
    if count > 0 {
        lemma_decode_items_len::<T>(bytes, (count - 1) as nat, endian);
    }
}

/// Decoding `count` single bytes takes them as they are.
pub proof fn lemma_decode_items_bytes(bytes: Seq<u8>, count: nat, endian: Endianness)
    ensures
        decode_items::<u8>(bytes, count, endian) == (if count <= bytes.len() {
            Some((bytes.take(count as int), count))
        } else {
            None
        }),
    decreases count,
{
    if count > 0 {
        lemma_decode_items_bytes(bytes, (count - 1) as nat, endian);
        if count <= bytes.len() {
            assert(bytes.take(count - 1).push(bytes.skip(count - 1)[0]) =~= bytes.take(count as int));
        }
    }
}

/// Relies on `String::from_utf8`: it accepts exactly the well-formed UTF-8
/// byte sequences, and the string then holds those bytes.
#[verifier::external_body]
fn string_from_utf8(bytes: Vec<u8>) -> (r: Option<String>)
    ensures
        r is Some <==> valid_utf8(bytes@),
        r matches Some(s) ==> encode_utf8(s@) == bytes@,
{
    String::from_utf8(bytes).ok()
}

impl Deserialize for String {
    /// The bytes after the count must be well-formed UTF-8.
    open spec fn spec_decode(bytes: Seq<u8>, endian: Endianness) -> Option<(Seq<char>, nat)> {
        if bytes.len() < 4 || bytes.len() < 4 + u32_from(bytes, endian) {
            None
        } else {
            let payload = bytes.subrange(4, 4 + u32_from(bytes, endian));
            if valid_utf8(payload) {
                Some((decode_utf8(payload), (4 + u32_from(bytes, endian)) as nat))
            } else {
                None
            }
        }
    }

    fn deserialize(buf: &[u8], endian: Endianness) -> (r: Result<(Self, usize), DeserializeError>) {
        let res = <Vec<u8>>::deserialize(buf, endian);
        match res {
            Ok((bytes, size)) => {
                proof {
                    if buf@.len() >= 4 {
                        lemma_decode_items_bytes(buf@.skip(4), u32_from(buf@, endian) as nat, endian);
                        assert(bytes.deep_view() =~= bytes@);
                        assert(buf@.skip(4).take(u32_from(buf@, endian) as int) =~= buf@.subrange(4, 4 + u32_from(buf@, endian)));
                    }
                }
                match string_from_utf8(bytes) {
                    Some(s) => {
                        proof {
                            vstd::utf8::encode_utf8_decode_utf8(s@);
                        }
                        Ok((s, size))
                    },
                    None => Err(DeserializeError::Invalid),
                }
            },
            Err(e) => {
                proof {
                    if buf@.len() >= 4 {
                        lemma_decode_items_bytes(buf@.skip(4), u32_from(buf@, endian) as nat, endian);
                    }
                }
                Err(e)
            },
        }
    }
}

} // verus!
