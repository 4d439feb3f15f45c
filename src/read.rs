//! Decoding values from a byte source.

use vstd::prelude::*;
use vstd::bytes::*;
use vstd::utf8::*;

use crate::stream::{ByteReader, Error, ErrorKind};
use crate::wire::{RoundTrip, Wire};
use crate::write::{encode_all, lemma_encode_all_front, nul_terminated, SerializeIo};

verus! {

/// A type that can be decoded from a byte source.
pub trait FromReader: Wire + Sized {
    /// What the bytes at the front of `bytes` decode to, and how many of
    /// them that takes; or the kind of error decoding them meets.
    /// An impl that is not verified keeps this default, of which nothing is
    /// known.
    closed spec fn parse(bytes: Seq<u8>) -> Result<(Self::Model, nat), ErrorKind> {
        arbitrary()
    }

    /// Decodes one value from `r`: on the value and length that `parse`
    /// gives, returns that value and leaves the rest; on the error it gives,
    /// fails with that kind.
    fn from_reader(r: &mut ByteReader) -> (res: Result<Self, Error>)
        ensures
            match Self::parse(old(r)@) {
                Ok((m, n)) => res is Ok && res->Ok_0.model() == m && n <= old(r)@.len()
                    && final(r)@ == old(r)@.skip(n as int),
                Err(k) => res is Err && res->Err_0.spec_kind() == k,
            },
    ;
}

impl FromReader for u8 {
    open spec fn parse(bytes: Seq<u8>) -> Result<(u8, nat), ErrorKind> {
        if bytes.len() >= 1 {
            Ok((bytes[0], 1))
        } else {
            Err(ErrorKind::UnexpectedEof)
        }
    }

    fn from_reader(r: &mut ByteReader) -> (res: Result<Self, Error>) {
        let res = r.read_byte();
        proof {
            if old(r)@.len() > 0 {
                assert(old(r)@.drop_first() =~= old(r)@.skip(1));
            }
        }
        res
    }
}

impl RoundTrip for u8 {
    open spec fn faithful(&self) -> bool {
        true
    }

    proof fn lemma_round_trip(v: &Self, rest: Seq<u8>) {
    }

    proof fn lemma_truncated(v: &Self, k: nat) {
    }
}

impl FromReader for u16 {
    open spec fn parse(bytes: Seq<u8>) -> Result<(u16, nat), ErrorKind> {
        if bytes.len() >= 2 {
            Ok((spec_u16_from_le_bytes(bytes.take(2)), 2))
        } else {
            Err(ErrorKind::UnexpectedEof)
        }
    }

    fn from_reader(r: &mut ByteReader) -> (res: Result<Self, Error>) {
        let b = r.read_exact(2)?;
        Ok(u16_from_le_bytes(b.as_slice()))
    }
}

impl RoundTrip for u16 {
    open spec fn faithful(&self) -> bool {
        true
    }

    proof fn lemma_round_trip(v: &Self, rest: Seq<u8>) {
        lemma_auto_spec_u16_to_from_le_bytes();
        assert((v.encoding() + rest).take(2) =~= v.encoding());
    }

    proof fn lemma_truncated(v: &Self, k: nat) {
        lemma_auto_spec_u16_to_from_le_bytes();
    }
}

impl FromReader for u32 {
    open spec fn parse(bytes: Seq<u8>) -> Result<(u32, nat), ErrorKind> {
        if bytes.len() >= 4 {
            Ok((spec_u32_from_le_bytes(bytes.take(4)), 4))
        } else {
            Err(ErrorKind::UnexpectedEof)
        }
    }

    fn from_reader(r: &mut ByteReader) -> (res: Result<Self, Error>) {
        let b = r.read_exact(4)?;
        Ok(u32_from_le_bytes(b.as_slice()))
    }
}

impl RoundTrip for u32 {
    open spec fn faithful(&self) -> bool {
        true
    }

    proof fn lemma_round_trip(v: &Self, rest: Seq<u8>) {
        lemma_auto_spec_u32_to_from_le_bytes();
        assert((v.encoding() + rest).take(4) =~= v.encoding());
    }

    proof fn lemma_truncated(v: &Self, k: nat) {
        lemma_auto_spec_u32_to_from_le_bytes();
    }
}

impl FromReader for u64 {
    open spec fn parse(bytes: Seq<u8>) -> Result<(u64, nat), ErrorKind> {
        if bytes.len() >= 8 {
            Ok((spec_u64_from_le_bytes(bytes.take(8)), 8))
        } else {
            Err(ErrorKind::UnexpectedEof)
        }
    }

    fn from_reader(r: &mut ByteReader) -> (res: Result<Self, Error>) {
        let b = r.read_exact(8)?;
        Ok(u64_from_le_bytes(b.as_slice()))
    }
}

impl RoundTrip for u64 {
    open spec fn faithful(&self) -> bool {
        true
    }

    proof fn lemma_round_trip(v: &Self, rest: Seq<u8>) {
        lemma_auto_spec_u64_to_from_le_bytes();
        assert((v.encoding() + rest).take(8) =~= v.encoding());
    }

    proof fn lemma_truncated(v: &Self, k: nat) {
        lemma_auto_spec_u64_to_from_le_bytes();
    }
}

impl FromReader for u128 {
    open spec fn parse(bytes: Seq<u8>) -> Result<(u128, nat), ErrorKind> {
        if bytes.len() >= 16 {
            Ok((spec_u128_from_le_bytes(bytes.take(16)), 16))
        } else {
            Err(ErrorKind::UnexpectedEof)
        }
    }

    fn from_reader(r: &mut ByteReader) -> (res: Result<Self, Error>) {
        let b = r.read_exact(16)?;
        Ok(u128_from_le_bytes(b.as_slice()))
    }
}

impl RoundTrip for u128 {
    open spec fn faithful(&self) -> bool {
        true
    }

    proof fn lemma_round_trip(v: &Self, rest: Seq<u8>) {
        lemma_auto_spec_u128_to_from_le_bytes();
        assert((v.encoding() + rest).take(16) =~= v.encoding());
    }

    proof fn lemma_truncated(v: &Self, k: nat) {
        lemma_auto_spec_u128_to_from_le_bytes();
    }
}

impl FromReader for i16 {
    open spec fn parse(bytes: Seq<u8>) -> Result<(i16, nat), ErrorKind> {
        if bytes.len() >= 2 {
            Ok((spec_u16_from_le_bytes(bytes.take(2)) as i16, 2))
        } else {
            Err(ErrorKind::UnexpectedEof)
        }
    }

    fn from_reader(r: &mut ByteReader) -> (res: Result<Self, Error>) {
        let b = r.read_exact(2)?;
        Ok(u16_from_le_bytes(b.as_slice()) as i16)
    }
}

impl RoundTrip for i16 {
    open spec fn faithful(&self) -> bool {
        true
    }

    proof fn lemma_round_trip(v: &Self, rest: Seq<u8>) {
        let x: i16 = *v;
        assert((x as u16) as i16 == x) by (bit_vector);
        lemma_auto_spec_u16_to_from_le_bytes();
        assert((v.encoding() + rest).take(2) =~= v.encoding());
    }

    proof fn lemma_truncated(v: &Self, k: nat) {
        lemma_auto_spec_u16_to_from_le_bytes();
    }
}

impl FromReader for i32 {
    open spec fn parse(bytes: Seq<u8>) -> Result<(i32, nat), ErrorKind> {
        if bytes.len() >= 4 {
            Ok((spec_u32_from_le_bytes(bytes.take(4)) as i32, 4))
        } else {
            Err(ErrorKind::UnexpectedEof)
        }
    }

    fn from_reader(r: &mut ByteReader) -> (res: Result<Self, Error>) {
        let b = r.read_exact(4)?;
        Ok(u32_from_le_bytes(b.as_slice()) as i32)
    }
}

impl RoundTrip for i32 {
    open spec fn faithful(&self) -> bool {
        true
    }

    proof fn lemma_round_trip(v: &Self, rest: Seq<u8>) {
        let x: i32 = *v;
        assert((x as u32) as i32 == x) by (bit_vector);
        lemma_auto_spec_u32_to_from_le_bytes();
        assert((v.encoding() + rest).take(4) =~= v.encoding());
    }

    proof fn lemma_truncated(v: &Self, k: nat) {
        lemma_auto_spec_u32_to_from_le_bytes();
    }
}

impl FromReader for i64 {
    open spec fn parse(bytes: Seq<u8>) -> Result<(i64, nat), ErrorKind> {
        if bytes.len() >= 8 {
            Ok((spec_u64_from_le_bytes(bytes.take(8)) as i64, 8))
        } else {
            Err(ErrorKind::UnexpectedEof)
        }
    }

    fn from_reader(r: &mut ByteReader) -> (res: Result<Self, Error>) {
        let b = r.read_exact(8)?;
        Ok(u64_from_le_bytes(b.as_slice()) as i64)
    }
}

impl RoundTrip for i64 {
    open spec fn faithful(&self) -> bool {
        true
    }

    proof fn lemma_round_trip(v: &Self, rest: Seq<u8>) {
        let x: i64 = *v;
        assert((x as u64) as i64 == x) by (bit_vector);
        lemma_auto_spec_u64_to_from_le_bytes();
        assert((v.encoding() + rest).take(8) =~= v.encoding());
    }

    proof fn lemma_truncated(v: &Self, k: nat) {
        lemma_auto_spec_u64_to_from_le_bytes();
    }
}

impl FromReader for i128 {
    open spec fn parse(bytes: Seq<u8>) -> Result<(i128, nat), ErrorKind> {
        if bytes.len() >= 16 {
            Ok((spec_u128_from_le_bytes(bytes.take(16)) as i128, 16))
        } else {
            Err(ErrorKind::UnexpectedEof)
        }
    }

    fn from_reader(r: &mut ByteReader) -> (res: Result<Self, Error>) {
        let b = r.read_exact(16)?;
        Ok(u128_from_le_bytes(b.as_slice()) as i128)
    }
}

impl RoundTrip for i128 {
    open spec fn faithful(&self) -> bool {
        true
    }

    proof fn lemma_round_trip(v: &Self, rest: Seq<u8>) {
        let x: i128 = *v;
        assert((x as u128) as i128 == x) by (bit_vector);
        lemma_auto_spec_u128_to_from_le_bytes();
        assert((v.encoding() + rest).take(16) =~= v.encoding());
    }

    proof fn lemma_truncated(v: &Self, k: nat) {
        lemma_auto_spec_u128_to_from_le_bytes();
    }
}

impl FromReader for usize {
    open spec fn parse(bytes: Seq<u8>) -> Result<(usize, nat), ErrorKind> {
        if bytes.len() >= 8 {
            Ok((spec_u64_from_le_bytes(bytes.take(8)) as usize, 8))
        } else {
            Err(ErrorKind::UnexpectedEof)
        }
    }

    fn from_reader(r: &mut ByteReader) -> (res: Result<Self, Error>) {
        let b = r.read_exact(8)?;
        Ok(u64_from_le_bytes(b.as_slice()) as usize)
    }
}

impl RoundTrip for usize {
    open spec fn faithful(&self) -> bool {
        true
    }

    proof fn lemma_round_trip(v: &Self, rest: Seq<u8>) {
        let x: usize = *v;
        assert((x as u64) as usize == x);
        lemma_auto_spec_u64_to_from_le_bytes();
        assert((v.encoding() + rest).take(8) =~= v.encoding());
    }

    proof fn lemma_truncated(v: &Self, k: nat) {
        lemma_auto_spec_u64_to_from_le_bytes();
    }
}

impl FromReader for i8 {
    open spec fn parse(bytes: Seq<u8>) -> Result<(i8, nat), ErrorKind> {
        if bytes.len() >= 1 {
            Ok((bytes[0] as i8, 1))
        } else {
            Err(ErrorKind::UnexpectedEof)
        }
    }

    fn from_reader(r: &mut ByteReader) -> (res: Result<Self, Error>) {
        let b = r.read_byte()?;
        proof {
            assert(old(r)@.drop_first() =~= old(r)@.skip(1));
        }
        Ok(b as i8)
    }
}

impl RoundTrip for i8 {
    open spec fn faithful(&self) -> bool {
        true
    }

    proof fn lemma_round_trip(v: &Self, rest: Seq<u8>) {
        let x: i8 = *v;
        assert((x as u8) as i8 == x) by (bit_vector);
    }

    proof fn lemma_truncated(v: &Self, k: nat) {
    }
}

impl FromReader for bool {
    /// Any nonzero byte is true.
    open spec fn parse(bytes: Seq<u8>) -> Result<(bool, nat), ErrorKind> {
        if bytes.len() >= 1 {
            Ok((bytes[0] != 0, 1))
        } else {
            Err(ErrorKind::UnexpectedEof)
        }
    }

    fn from_reader(r: &mut ByteReader) -> (res: Result<Self, Error>) {
        let b = r.read_byte()?;
        proof {
            assert(old(r)@.drop_first() =~= old(r)@.skip(1));
        }
        Ok(b != 0)
    }
}

impl RoundTrip for bool {
    open spec fn faithful(&self) -> bool {
        true
    }

    proof fn lemma_round_trip(v: &Self, rest: Seq<u8>) {
    }

    proof fn lemma_truncated(v: &Self, k: nat) {
    }
}

/// Relies on `char::from_u32`: `Some` exactly on Unicode scalar values,
/// holding the character with that code point.
#[verifier::external_body]
fn char_from_u32(v: u32) -> (r: Option<char>)
    ensures
        r is Some <==> is_scalar(v),
        r is Some ==> r->Some_0 as u32 == v,
{
    char::from_u32(v)
}

impl FromReader for char {
    /// A little-endian `u32` that must be a Unicode scalar value.
    open spec fn parse(bytes: Seq<u8>) -> Result<(char, nat), ErrorKind> {
        if bytes.len() >= 4 {
            let v = spec_u32_from_le_bytes(bytes.take(4));
            if is_scalar(v) {
                Ok((v as char, 4))
            } else {
                Err(ErrorKind::InvalidData)
            }
        } else {
            Err(ErrorKind::UnexpectedEof)
        }
    }

    fn from_reader(r: &mut ByteReader) -> (res: Result<Self, Error>) {
        let v = u32::from_reader(r)?;
        match char_from_u32(v) {
            Some(c) => {
                proof {
                    char_u32_cast(c, v);
                }
                Ok(c)
            },
            None => Err(Error::InvalidData),
        }
    }
}

impl RoundTrip for char {
    open spec fn faithful(&self) -> bool {
        true
    }

    proof fn lemma_round_trip(v: &Self, rest: Seq<u8>) {
        lemma_auto_spec_u32_to_from_le_bytes();
        assert((v.encoding() + rest).take(4) =~= v.encoding());
        char_is_scalar(*v);
        char_u32_cast(*v, *v as u32);
    }

    proof fn lemma_truncated(v: &Self, k: nat) {
        lemma_auto_spec_u32_to_from_le_bytes();
    }
}

impl FromReader for () {
    open spec fn parse(bytes: Seq<u8>) -> Result<((), nat), ErrorKind> {
        Ok(((), 0))
    }

    fn from_reader(r: &mut ByteReader) -> (res: Result<Self, Error>) {
        assert(old(r)@.skip(0) =~= old(r)@);
        Ok(())
    }
}

impl RoundTrip for () {
    open spec fn faithful(&self) -> bool {
        true
    }

    proof fn lemma_round_trip(v: &Self, rest: Seq<u8>) {
    }

    proof fn lemma_truncated(v: &Self, k: nat) {
    }
}

/// The index of the first NUL byte of `bytes`, if it holds one.
pub open spec fn nul_index(bytes: Seq<u8>) -> Option<nat>
    decreases bytes.len(),
{
    if bytes.len() == 0 {
        None
    } else if bytes[0] == 0 {
        Some(0)
    } else {
        match nul_index(bytes.drop_first()) {
            Some(i) => Some(i + 1),
            None => None,
        }
    }
}

/// Skipping `k` bytes that are not NUL moves the first NUL `k` places closer.
pub proof fn lemma_nul_index_skip(bytes: Seq<u8>, k: int)
    requires
        0 <= k <= bytes.len(),
        forall|j: int| 0 <= j < k ==> bytes[j] != 0,
    ensures
        nul_index(bytes) == match nul_index(bytes.skip(k)) {
            Some(i) => Some(i + k as nat),
            None => None::<nat>,
        },
    decreases k,
{
    if k > 0 {
        lemma_nul_index_skip(bytes.drop_first(), k - 1);
        assert(bytes.drop_first().skip(k - 1) =~= bytes.skip(k));
    } else {
        assert(bytes.skip(0) =~= bytes);
    }
}

/// Relies on `String::from_utf8`: `Some` exactly when the bytes are valid
/// UTF-8, holding the characters they encode.
#[verifier::external_body]
fn string_from_utf8(bytes: Vec<u8>) -> (r: Option<String>)
    ensures
        r is Some <==> valid_utf8(bytes@),
        r is Some ==> r->Some_0@ == decode_utf8(bytes@),
{
    String::from_utf8(bytes).ok()
}

impl FromReader for String {
    /// The bytes up to the first NUL, which must be valid UTF-8; the NUL is
    /// consumed too.
    open spec fn parse(bytes: Seq<u8>) -> Result<(Seq<char>, nat), ErrorKind> {
        match nul_index(bytes) {
            Some(i) => if valid_utf8(bytes.take(i as int)) {
                Ok((decode_utf8(bytes.take(i as int)), i + 1))
            } else {
                Err(ErrorKind::InvalidData)
            },
            None => Err(ErrorKind::UnexpectedEof),
        }
    }

    fn from_reader(r: &mut ByteReader) -> (res: Result<Self, Error>) {
        let ghost input = r@;
        let mut buf: Vec<u8> = Vec::new();
        loop
            invariant_except_break
                r@ == input.skip(buf@.len() as int),
            invariant
                buf@.len() <= input.len(),
                buf@ == input.take(buf@.len() as int),
                forall|j: int| 0 <= j < buf@.len() ==> input[j] != 0,
                input == old(r)@,
            ensures
                buf@.len() < input.len(),
                input[buf@.len() as int] == 0,
                r@ == input.skip(buf@.len() + 1int),
            decreases input.len() - buf@.len(),
        {
            proof {
                lemma_nul_index_skip(input, buf@.len() as int);
                if input.skip(buf@.len() as int).len() == 0 {
                    assert(nul_index(input.skip(buf@.len() as int)) == None::<nat>);
                }
            }
            let b = r.read_byte()?;
            if b == 0 {
                proof {
                    assert(input.skip(buf@.len() as int).drop_first() =~= input.skip(
                        buf@.len() + 1int,
                    ));
                }
                break;
            }
            buf.push(b);
            proof {
                assert(buf@ =~= input.take(buf@.len() as int));
                assert(input.skip(buf@.len() - 1int).drop_first() =~= input.skip(buf@.len() as int));
            }
        }
        proof {
            lemma_nul_index_skip(input, buf@.len() as int);
        }
        match string_from_utf8(buf) {
            Some(s) => Ok(s),
            None => Err(Error::InvalidData),
        }
    }
}

/// Bytes up to the first NUL that are not valid UTF-8 decode to no string:
/// the error is invalid data.
pub proof fn lemma_invalid_utf8(bytes: Seq<u8>)
    requires
        nul_index(bytes) is Some,
        !valid_utf8(bytes.take(nul_index(bytes)->Some_0 as int)),
    ensures
        String::parse(bytes) == Err::<(Seq<char>, nat), ErrorKind>(ErrorKind::InvalidData),
{
}

/// Text whose UTF-8 bytes hold no NUL decodes from its terminated encoding,
/// followed by any bytes, back to itself.
pub proof fn lemma_text_round_trip(chars: Seq<char>, rest: Seq<u8>)
    requires
        !encode_utf8(chars).contains(0u8),
    ensures
        String::parse(nul_terminated(encode_utf8(chars)) + rest) == Ok::<(Seq<char>, nat), ErrorKind>(
            (chars, nul_terminated(encode_utf8(chars)).len()),
        ),
{
    let b = encode_utf8(chars);
    let all = nul_terminated(b) + rest;
    if b.len() > 0 {
        assert(b.contains(b.last()));
    }
    assert(nul_terminated(b) == b.push(0));
    assert forall|j: int| 0 <= j < b.len() implies all[j] != 0 by {
        assert(all[j] == b[j]);
        assert(b.contains(b[j]));
    }
    lemma_nul_index_skip(all, b.len() as int);
    assert(all.skip(b.len() as int)[0] == 0);
    assert(all.take(b.len() as int) =~= b);
    encode_utf8_valid_utf8(chars);
    encode_utf8_decode_utf8(chars);
}

/// A strict prefix of the encoding of text whose UTF-8 bytes hold no NUL
/// has no terminator: decoding it fails with an unexpected end.
pub proof fn lemma_text_truncated(chars: Seq<char>, k: nat)
    requires
        !encode_utf8(chars).contains(0u8),
        k < nul_terminated(encode_utf8(chars)).len(),
    ensures
        String::parse(nul_terminated(encode_utf8(chars)).take(k as int)) == Err::<
            (Seq<char>, nat),
            ErrorKind,
        >(ErrorKind::UnexpectedEof),
{
    let b = encode_utf8(chars);
    let cut = nul_terminated(b).take(k as int);
    assert(nul_terminated(b) == b.push(0)) by {
        if b.len() > 0 {
            assert(b.contains(b.last()));
        }
    }
    assert forall|j: int| 0 <= j < cut.len() implies cut[j] != 0 by {
        assert(cut[j] == b[j]);
        assert(b.contains(b[j]));
    }
    lemma_nul_index_skip(cut, cut.len() as int);
    assert(nul_index(cut.skip(cut.len() as int)) == None::<nat>);
}

impl RoundTrip for String {
    /// The UTF-8 bytes hold no NUL, so the terminator is where the text ends.
    open spec fn faithful(&self) -> bool {
        !encode_utf8(self@).contains(0u8)
    }

    proof fn lemma_round_trip(v: &Self, rest: Seq<u8>) {
        lemma_text_round_trip(v@, rest);
    }

    proof fn lemma_truncated(v: &Self, k: nat) {
        lemma_text_truncated(v@, k);
    }
}

impl<T: FromReader> FromReader for Option<T> {
    /// A flag byte; when it is nonzero, the value follows.
    open spec fn parse(bytes: Seq<u8>) -> Result<(Option<T::Model>, nat), ErrorKind> {
        if bytes.len() >= 1 {
            if bytes[0] != 0 {
                match T::parse(bytes.skip(1)) {
                    Ok((m, n)) => Ok((Some(m), n + 1)),
                    Err(k) => Err(k),
                }
            } else {
                Ok((None, 1))
            }
        } else {
            Err(ErrorKind::UnexpectedEof)
        }
    }

    fn from_reader(r: &mut ByteReader) -> (res: Result<Self, Error>) {
        let present = bool::from_reader(r)?;
        if present {
            let v = T::from_reader(r)?;
            proof {
                assert(old(r)@.skip(1).skip(T::parse(old(r)@.skip(1))->Ok_0.1 as int) =~= old(
                    r,
                )@.skip((T::parse(old(r)@.skip(1))->Ok_0.1 + 1) as int));
            }
            Ok(Some(v))
        } else {
            Ok(None)
        }
    }
}

impl<T: RoundTrip> RoundTrip for Option<T> {
    open spec fn faithful(&self) -> bool {
        match self {
            Some(v) => v.faithful(),
            None => true,
        }
    }

    proof fn lemma_round_trip(v: &Self, rest: Seq<u8>) {
        if let Some(x) = v {
            T::lemma_round_trip(x, rest);
            assert((v.encoding() + rest).skip(1) =~= x.encoding() + rest);
        }
    }

    proof fn lemma_truncated(v: &Self, k: nat) {
        if k > 0 {
            let x = v->Some_0;
            T::lemma_truncated(&x, (k - 1) as nat);
            assert(v.encoding().take(k as int).skip(1) =~= x.encoding().take(k - 1));
        }
    }
}

impl<T: FromReader, E: FromReader> FromReader for Result<T, E> {
    /// A flag byte; when it is nonzero an error value follows, else a
    /// success value.
    open spec fn parse(bytes: Seq<u8>) -> Result<(Result<T::Model, E::Model>, nat), ErrorKind> {
        if bytes.len() >= 1 {
            if bytes[0] != 0 {
                match E::parse(bytes.skip(1)) {
                    Ok((m, n)) => Ok((Err(m), n + 1)),
                    Err(k) => Err(k),
                }
            } else {
                match T::parse(bytes.skip(1)) {
                    Ok((m, n)) => Ok((Ok(m), n + 1)),
                    Err(k) => Err(k),
                }
            }
        } else {
            Err(ErrorKind::UnexpectedEof)
        }
    }

    fn from_reader(r: &mut ByteReader) -> (res: Result<Self, Error>) {
        let is_err = bool::from_reader(r)?;
        if is_err {
            let e = E::from_reader(r)?;
            proof {
                assert(old(r)@.skip(1).skip(E::parse(old(r)@.skip(1))->Ok_0.1 as int) =~= old(
                    r,
                )@.skip((E::parse(old(r)@.skip(1))->Ok_0.1 + 1) as int));
            }
            Ok(Err(e))
        } else {
            let v = T::from_reader(r)?;
            proof {
                assert(old(r)@.skip(1).skip(T::parse(old(r)@.skip(1))->Ok_0.1 as int) =~= old(
                    r,
                )@.skip((T::parse(old(r)@.skip(1))->Ok_0.1 + 1) as int));
            }
            Ok(Ok(v))
        }
    }
}

impl<T: RoundTrip, E: RoundTrip> RoundTrip for Result<T, E> {
    open spec fn faithful(&self) -> bool {
        match self {
            Ok(v) => v.faithful(),
            Err(e) => e.faithful(),
        }
    }

    proof fn lemma_round_trip(v: &Self, rest: Seq<u8>) {
        match v {
            Ok(x) => {
                T::lemma_round_trip(x, rest);
                assert((v.encoding() + rest).skip(1) =~= x.encoding() + rest);
            },
            Err(e) => {
                E::lemma_round_trip(e, rest);
                assert((v.encoding() + rest).skip(1) =~= e.encoding() + rest);
            },
        }
    }

    proof fn lemma_truncated(v: &Self, k: nat) {
        if k > 0 {
            match v {
                Ok(x) => {
                    T::lemma_truncated(x, (k - 1) as nat);
                    assert(v.encoding().take(k as int).skip(1) =~= x.encoding().take(k - 1));
                },
                Err(e) => {
                    E::lemma_truncated(e, (k - 1) as nat);
                    assert(v.encoding().take(k as int).skip(1) =~= e.encoding().take(k - 1));
                },
            }
        }
    }
}

impl<T: FromReader, Z: FromReader> FromReader for (T, Z) {
    /// The components in order.
    open spec fn parse(bytes: Seq<u8>) -> Result<((T::Model, Z::Model), nat), ErrorKind> {
        match T::parse(bytes) {
            Ok((a, n)) => match Z::parse(bytes.skip(n as int)) {
                Ok((b, k)) => Ok(((a, b), n + k)),
                Err(e) => Err(e),
            },
            Err(e) => Err(e),
        }
    }

    fn from_reader(r: &mut ByteReader) -> (res: Result<Self, Error>) {
        let a = T::from_reader(r)?;
        let ghost n = T::parse(old(r)@)->Ok_0.1;
        let b = Z::from_reader(r)?;
        proof {
            let k = Z::parse(old(r)@.skip(n as int))->Ok_0.1;
            assert(old(r)@.skip(n as int).skip(k as int) =~= old(r)@.skip((n + k) as int));
        }
        Ok((a, b))
    }
}

impl<T: RoundTrip, Z: RoundTrip> RoundTrip for (T, Z) {
    open spec fn faithful(&self) -> bool {
        self.0.faithful() && self.1.faithful()
    }

    proof fn lemma_round_trip(v: &Self, rest: Seq<u8>) {
        let all = v.encoding() + rest;
        T::lemma_round_trip(&v.0, v.1.encoding() + rest);
        assert(all =~= v.0.encoding() + (v.1.encoding() + rest));
        Z::lemma_round_trip(&v.1, rest);
        assert(all.skip(v.0.encoding().len() as int) =~= v.1.encoding() + rest);
    }

    proof fn lemma_truncated(v: &Self, k: nat) {
        let cut = v.encoding().take(k as int);
        let n = v.0.encoding().len();
        if k < n {
            T::lemma_truncated(&v.0, k);
            assert(cut =~= v.0.encoding().take(k as int));
        } else {
            let part = v.1.encoding().take(k - n);
            T::lemma_round_trip(&v.0, part);
            assert(cut =~= v.0.encoding() + part);
            Z::lemma_truncated(&v.1, (k - n) as nat);
            assert(cut.skip(n as int) =~= part);
        }
    }
}

impl<T: FromReader, Z: FromReader, H: FromReader> FromReader for (T, Z, H) {
    /// The components in order.
    open spec fn parse(bytes: Seq<u8>) -> Result<((T::Model, Z::Model, H::Model), nat), ErrorKind> {
        match T::parse(bytes) {
            Ok((a, n)) => match Z::parse(bytes.skip(n as int)) {
                Ok((b, k)) => match H::parse(bytes.skip((n + k) as int)) {
                    Ok((c, j)) => Ok(((a, b, c), n + k + j)),
                    Err(e) => Err(e),
                },
                Err(e) => Err(e),
            },
            Err(e) => Err(e),
        }
    }

    fn from_reader(r: &mut ByteReader) -> (res: Result<Self, Error>) {
        let a = T::from_reader(r)?;
        let ghost n = T::parse(old(r)@)->Ok_0.1;
        let b = Z::from_reader(r)?;
        let ghost k = Z::parse(old(r)@.skip(n as int))->Ok_0.1;
        proof {
            assert(old(r)@.skip(n as int).skip(k as int) =~= old(r)@.skip((n + k) as int));
        }
        let c = H::from_reader(r)?;
        proof {
            let j = H::parse(old(r)@.skip((n + k) as int))->Ok_0.1;
            assert(old(r)@.skip((n + k) as int).skip(j as int) =~= old(r)@.skip((n + k + j) as int));
        }
        Ok((a, b, c))
    }
}

impl<T: RoundTrip, Z: RoundTrip, H: RoundTrip> RoundTrip for (T, Z, H) {
    open spec fn faithful(&self) -> bool {
        self.0.faithful() && self.1.faithful() && self.2.faithful()
    }

    proof fn lemma_round_trip(v: &Self, rest: Seq<u8>) {
        let all = v.encoding() + rest;
        let n = v.0.encoding().len();
        let k = v.1.encoding().len();
        T::lemma_round_trip(&v.0, v.1.encoding() + v.2.encoding() + rest);
        assert(all =~= v.0.encoding() + (v.1.encoding() + v.2.encoding() + rest));
        Z::lemma_round_trip(&v.1, v.2.encoding() + rest);
        assert(all.skip(n as int) =~= v.1.encoding() + (v.2.encoding() + rest));
        H::lemma_round_trip(&v.2, rest);
        assert(all.skip((n + k) as int) =~= v.2.encoding() + rest);
    }

    proof fn lemma_truncated(v: &Self, k: nat) {
        let cut = v.encoding().take(k as int);
        let n = v.0.encoding().len();
        let m = v.1.encoding().len();
        if k < n {
            T::lemma_truncated(&v.0, k);
            assert(cut =~= v.0.encoding().take(k as int));
        } else if k < n + m {
            let part = v.1.encoding().take(k - n);
            T::lemma_round_trip(&v.0, part);
            assert(cut =~= v.0.encoding() + part);
            Z::lemma_truncated(&v.1, (k - n) as nat);
            assert(cut.skip(n as int) =~= part);
        } else {
            let part = v.2.encoding().take(k - n - m);
            T::lemma_round_trip(&v.0, v.1.encoding() + part);
            assert(cut =~= v.0.encoding() + (v.1.encoding() + part));
            Z::lemma_round_trip(&v.1, part);
            assert(cut.skip(n as int) =~= v.1.encoding() + part);
            H::lemma_truncated(&v.2, (k - n - m) as nat);
            assert(cut.skip((n + m) as int) =~= part);
        }
    }
}

/// Decoding `count` values of `T`, one after another, from the front of
/// `bytes`: their models and the bytes they take, or the first error met.
pub open spec fn parse_all<T: FromReader>(bytes: Seq<u8>, count: nat) -> Result<
    (Seq<T::Model>, nat),
    ErrorKind,
>
    decreases count,
{
    if count == 0 {
        Ok((Seq::empty(), 0))
    } else {
        match T::parse(bytes) {
            Ok((m, n)) => match parse_all::<T>(bytes.skip(n as int), (count - 1) as nat) {
                Ok((ms, k)) => Ok((seq![m] + ms, n + k)),
                Err(e) => Err(e),
            },
            Err(e) => Err(e),
        }
    }
}

/// `res` with `done` put before its models and `used` added to its length.
pub open spec fn after_prefix<M>(
    done: Seq<M>,
    used: nat,
    res: Result<(Seq<M>, nat), ErrorKind>,
) -> Result<(Seq<M>, nat), ErrorKind> {
    match res {
        Ok((ms, k)) => Ok((done + ms, used + k)),
        Err(e) => Err(e),
    }
}

/// Decoding the encodings of faithful items gives back their models.
pub proof fn lemma_parse_all_encode_all<T: RoundTrip>(items: Seq<T>, rest: Seq<u8>)
    requires
        forall|i: int| 0 <= i < items.len() ==> (#[trigger] items[i]).faithful(),
    ensures
        parse_all::<T>(encode_all(items) + rest, items.len()) == Ok::<
            (Seq<T::Model>, nat),
            ErrorKind,
        >((items.map_values(|x: T| x.model()), encode_all(items).len())),
    decreases items.len(),
{
    if items.len() == 0 {
        assert(items.map_values(|x: T| x.model()) =~= Seq::<T::Model>::empty());
    } else {
        let tail = items.drop_first();
        lemma_encode_all_front(items);
        assert(items[0].faithful());
        T::lemma_round_trip(&items[0], encode_all(tail) + rest);
        assert(encode_all(items) + rest =~= items[0].encoding() + (encode_all(tail) + rest));
        assert((encode_all(items) + rest).skip(items[0].encoding().len() as int) =~= encode_all(
            tail,
        ) + rest);
        assert forall|i: int| 0 <= i < tail.len() implies (#[trigger] tail[i]).faithful() by {
            assert(tail[i] == items[i + 1]);
        }
        lemma_parse_all_encode_all(tail, rest);
        assert(items.map_values(|x: T| x.model()) =~= seq![items[0].model()] + tail.map_values(
            |x: T| x.model(),
        ));
    }
}

/// A strict prefix of the encodings of faithful items ends too early.
pub proof fn lemma_parse_all_truncated<T: RoundTrip>(items: Seq<T>, k: nat)
    requires
        forall|i: int| 0 <= i < items.len() ==> (#[trigger] items[i]).faithful(),
        k < encode_all(items).len(),
    ensures
        parse_all::<T>(encode_all(items).take(k as int), items.len()) == Err::<
            (Seq<T::Model>, nat),
            ErrorKind,
        >(ErrorKind::UnexpectedEof),
    decreases items.len(),
{
    let tail = items.drop_first();
    let cut = encode_all(items).take(k as int);
    lemma_encode_all_front(items);
    let n = items[0].encoding().len();
    assert(items[0].faithful());
    if k < n {
        T::lemma_truncated(&items[0], k);
        assert(cut =~= items[0].encoding().take(k as int));
    } else {
        let part = encode_all(tail).take(k - n);
        T::lemma_round_trip(&items[0], part);
        assert(cut =~= items[0].encoding() + part);
        assert(cut.skip(n as int) =~= part);
        assert forall|i: int| 0 <= i < tail.len() implies (#[trigger] tail[i]).faithful() by {
            assert(tail[i] == items[i + 1]);
        }
        lemma_parse_all_truncated(tail, (k - n) as nat);
    }
}

impl<T: FromReader> FromReader for Vec<T> {
    /// A little-endian `u32` count, then that many values.
    open spec fn parse(bytes: Seq<u8>) -> Result<(Seq<T::Model>, nat), ErrorKind> {
        if bytes.len() >= 4 {
            match parse_all::<T>(bytes.skip(4), spec_u32_from_le_bytes(bytes.take(4)) as nat) {
                Ok((ms, n)) => Ok((ms, n + 4)),
                Err(e) => Err(e),
            }
        } else {
            Err(ErrorKind::UnexpectedEof)
        }
    }

    fn from_reader(r: &mut ByteReader) -> (res: Result<Self, Error>) {
        let len = u32::from_reader(r)?;
        let ghost start = r@;
        let ghost mut used: nat = 0;
        let mut out: Vec<T> = Vec::new();
        let mut i: u32 = 0;
        assert(start.skip(0) =~= start);
        while i < len
            invariant
                i <= len,
                out@.len() == i,
                start == old(r)@.skip(4),
                len == spec_u32_from_le_bytes(old(r)@.take(4)),
                old(r)@.len() >= 4,
                used <= start.len(),
                r@ == start.skip(used as int),
                parse_all::<T>(start, len as nat) == after_prefix(
                    out@.map_values(|x: T| x.model()),
                    used,
                    parse_all::<T>(r@, (len - i) as nat),
                ),
            decreases len - i,
        {
            let ghost before = r@;
            let v = T::from_reader(r)?;
            proof {
                let n = T::parse(before)->Ok_0.1;
                assert(start.skip(used as int).skip(n as int) =~= start.skip((used + n) as int));
                used = used + n;
            }
            let ghost done = out@.map_values(|x: T| x.model());
            out.push(v);
            i = i + 1;
            proof {
                assert(out@.map_values(|x: T| x.model()) =~= done.push(v.model()));
                match parse_all::<T>(r@, (len - i) as nat) {
                    Ok((ms, k)) => {
                        assert(done + (seq![v.model()] + ms) =~= done.push(v.model()) + ms);
                    },
                    Err(e) => {},
                }
            }
        }
        proof {
            assert(out@.map_values(|x: T| x.model()) + Seq::<T::Model>::empty() =~= out@.map_values(
                |x: T| x.model(),
            ));
        }
        Ok(out)
    }
}

impl<T: RoundTrip> RoundTrip for Vec<T> {
    /// No more items than a `u32` counts, each of them faithful.
    open spec fn faithful(&self) -> bool {
        &&& self@.len() <= u32::MAX
        &&& forall|i: int| 0 <= i < self@.len() ==> (#[trigger] self@[i]).faithful()
    }

    proof fn lemma_round_trip(v: &Self, rest: Seq<u8>) {
        let head = spec_u32_to_le_bytes(v@.len() as u32);
        let all = v.encoding() + rest;
        lemma_auto_spec_u32_to_from_le_bytes();
        assert(all.take(4) =~= head);
        assert(all.skip(4) =~= encode_all(v@) + rest);
        lemma_parse_all_encode_all(v@, rest);
    }

    proof fn lemma_truncated(v: &Self, k: nat) {
        let cut = v.encoding().take(k as int);
        if k >= 4 {
            lemma_auto_spec_u32_to_from_le_bytes();
            assert(cut.take(4) =~= spec_u32_to_le_bytes(v@.len() as u32));
            assert(cut.skip(4) =~= encode_all(v@).take(k - 4));
            lemma_parse_all_truncated(v@, (k - 4) as nat);
        }
    }
}

impl<T: FromReader + Copy + Default, const N: usize> FromReader for [T; N] {
    /// `N` values, with no count before them.
    open spec fn parse(bytes: Seq<u8>) -> Result<(Seq<T::Model>, nat), ErrorKind> {
        parse_all::<T>(bytes, N as nat)
    }

    fn from_reader(r: &mut ByteReader) -> (res: Result<Self, Error>) {
        let mut arr: [T; N] = [T::default(); N];
        let ghost start = r@;
        let ghost mut used: nat = 0;
        let mut i: usize = 0;
        assert(start.skip(0) =~= start);
        while i < N
            invariant
                i <= N,
                arr@.len() == N,
                start == old(r)@,
                used <= start.len(),
                r@ == start.skip(used as int),
                parse_all::<T>(start, N as nat) == after_prefix(
                    arr@.take(i as int).map_values(|x: T| x.model()),
                    used,
                    parse_all::<T>(r@, (N - i) as nat),
                ),
            decreases N - i,
        {
            let ghost before = r@;
            let v = T::from_reader(r)?;
            proof {
                let n = T::parse(before)->Ok_0.1;
                assert(start.skip(used as int).skip(n as int) =~= start.skip((used + n) as int));
                used = used + n;
            }
            let ghost done = arr@.take(i as int).map_values(|x: T| x.model());
            arr[i] = v;
            i = i + 1;
            proof {
                assert(arr@.take(i as int).map_values(|x: T| x.model()) =~= done.push(v.model()));
                match parse_all::<T>(r@, (N - i) as nat) {
                    Ok((ms, k)) => {
                        assert(done + (seq![v.model()] + ms) =~= done.push(v.model()) + ms);
                    },
                    Err(e) => {},
                }
            }
        }
        proof {
            assert(arr@.take(i as int) =~= arr@);
            assert(arr@.map_values(|x: T| x.model()) + Seq::<T::Model>::empty() =~= arr@.map_values(
                |x: T| x.model(),
            ));
        }
        Ok(arr)
    }
}

impl<T: RoundTrip + Copy + Default, const N: usize> RoundTrip for [T; N] {
    open spec fn faithful(&self) -> bool {
        forall|i: int| 0 <= i < N ==> (#[trigger] self@[i]).faithful()
    }

    proof fn lemma_round_trip(v: &Self, rest: Seq<u8>) {
        lemma_parse_all_encode_all(v@, rest);
    }

    proof fn lemma_truncated(v: &Self, k: nat) {
        lemma_parse_all_truncated(v@, k);
    }
}

impl<T: FromReader> FromReader for Box<T> {
    /// A value of `T`, boxed.
    open spec fn parse(bytes: Seq<u8>) -> Result<(T::Model, nat), ErrorKind> {
        T::parse(bytes)
    }

    fn from_reader(r: &mut ByteReader) -> (res: Result<Self, Error>) {
        let v = T::from_reader(r)?;
        Ok(Box::new(v))
    }
}

impl<T: RoundTrip> RoundTrip for Box<T> {
    open spec fn faithful(&self) -> bool {
        (**self).faithful()
    }

    proof fn lemma_round_trip(v: &Self, rest: Seq<u8>) {
        T::lemma_round_trip(&**v, rest);
    }

    proof fn lemma_truncated(v: &Self, k: nat) {
        T::lemma_truncated(&**v, k);
    }
}

/// A byte source that values can be decoded from.
pub trait ToraRead {
    /// The bytes not read yet.
    spec fn unread(&self) -> Seq<u8>;

    /// Decodes one value of `T`, as `T::from_reader` does.
    fn reads<T: FromReader>(&mut self) -> (res: Result<T, Error>)
        ensures
            match T::parse(old(self).unread()) {
                Ok((m, n)) => res is Ok && res->Ok_0.model() == m && n <= old(self).unread().len()
                    && final(self).unread() == old(self).unread().skip(n as int),
                Err(k) => res is Err && res->Err_0.spec_kind() == k,
            },
    ;
}

impl ToraRead for ByteReader {
    open spec fn unread(&self) -> Seq<u8> {
        self@
    }

    fn reads<T: FromReader>(&mut self) -> (res: Result<T, Error>) {
        T::from_reader(self)
    }
}

/// What decoding a `T` after `padding` discarded bytes gives: the model and
/// the bytes taken, padding included, or the error met.
pub open spec fn parse_padded<T: FromReader>(padding: nat, bytes: Seq<u8>) -> Result<
    (T::Model, nat),
    ErrorKind,
> {
    if bytes.len() < padding {
        Err(ErrorKind::UnexpectedEof)
    } else {
        match T::parse(bytes.skip(padding as int)) {
            Ok((m, n)) => Ok((m, n + padding)),
            Err(k) => Err(k),
        }
    }
}

/// A reader that discards a set number of bytes before each value it reads.
pub struct PaddedReader {
    padding: usize,
}

impl PaddedReader {
    /// The number of bytes discarded before each value.
    pub closed spec fn spec_padding(&self) -> usize {
        self.padding
    }

    /// Discards the padding, reads a `T`, and on success makes `new_padding`
    /// the padding of the reads that follow.
    pub fn reads_then_set_padding<T: FromReader>(
        &mut self,
        r: &mut ByteReader,
        new_padding: usize,
    ) -> (res: Result<T, Error>)
        ensures
            match parse_padded::<T>(old(self).spec_padding() as nat, old(r)@) {
                Ok((m, n)) => res is Ok && res->Ok_0.model() == m && n <= old(r)@.len()
                    && final(r)@ == old(r)@.skip(n as int)
                    && final(self).spec_padding() == new_padding,
                Err(k) => res is Err && res->Err_0.spec_kind() == k
                    && final(self).spec_padding() == old(self).spec_padding(),
            },
    {
        let data = self.reads(r)?;
        self.padding = new_padding;
        Ok(data)
    }

    /// Discards the padding, then reads a `T`.
    pub fn reads<T: FromReader>(&self, r: &mut ByteReader) -> (res: Result<T, Error>)
        ensures
            match parse_padded::<T>(self.spec_padding() as nat, old(r)@) {
                Ok((m, n)) => res is Ok && res->Ok_0.model() == m && n <= old(r)@.len()
                    && final(r)@ == old(r)@.skip(n as int),
                Err(k) => res is Err && res->Err_0.spec_kind() == k,
            },
    {
        r.skip(self.padding)?;
        let ghost mid = r@;
        let v = r.reads::<T>()?;
        proof {
            let n = T::parse(mid)->Ok_0.1;
            assert(old(r)@.skip(self.padding as int).skip(n as int) =~= old(r)@.skip(
                (n + self.padding) as int,
            ));
        }
        Ok(v)
    }

    /// Sets the padding of the reads that follow.
    pub fn set_padding(&mut self, padding: usize) -> (r: &mut Self)
        ensures
            r.spec_padding() == padding,
            *final(self) == *final(r),
    {
        self.padding = padding;
        self
    }

    /// A reader with the given initial padding.
    pub fn with_padding(padding: usize) -> (r: Self)
        ensures
            r.spec_padding() == padding,
    {
        Self { padding }
    }

    /// The number of bytes discarded before each value.
    pub fn padding(&self) -> (p: usize)
        ensures
            p == self.spec_padding(),
    {
        self.padding
    }
}

impl Default for PaddedReader {
    /// A reader that discards nothing.
    fn default() -> (r: Self)
        ensures
            r.spec_padding() == 0,
    {
        Self { padding: 0 }
    }
}

} // verus!
