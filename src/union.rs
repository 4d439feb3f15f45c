//! Variant tags of tagged unions, and the checks on declarations.

use vstd::prelude::*;
use vstd::bytes::*;

use crate::read::FromReader;
use crate::stream::{ByteReader, Error, ErrorKind};
use crate::wire::RoundTrip;
use crate::write::SerializeIo;

verus! {

/// The integer type that a tagged union writes its variant tag as.
#[derive(PartialEq, Eq, Structural, Clone, Copy, Debug)]
pub enum TagType {
    U8,
    U16,
    U32,
    U64,
    I8,
    I16,
    I32,
    I64,
}

/// The largest tag a value of the tag type can hold.
pub open spec fn tag_max(t: TagType) -> nat {
    match t {
        TagType::U8 => u8::MAX as nat,
        TagType::U16 => u16::MAX as nat,
        TagType::U32 => u32::MAX as nat,
        TagType::U64 => u64::MAX as nat,
        TagType::I8 => i8::MAX as nat,
        TagType::I16 => i16::MAX as nat,
        TagType::I32 => i32::MAX as nat,
        TagType::I64 => i64::MAX as nat,
    }
}

/// The bytes that encode tag `index` as a value of the tag type.
pub open spec fn tag_encoding(t: TagType, index: nat) -> Seq<u8> {
    match t {
        TagType::U8 => (index as u8).encoding(),
        TagType::U16 => (index as u16).encoding(),
        TagType::U32 => (index as u32).encoding(),
        TagType::U64 => (index as u64).encoding(),
        TagType::I8 => (index as i8).encoding(),
        TagType::I16 => (index as i16).encoding(),
        TagType::I32 => (index as i32).encoding(),
        TagType::I64 => (index as i64).encoding(),
    }
}

/// The tag value at the front of `bytes`, and its width in bytes.
pub open spec fn tag_parse(t: TagType, bytes: Seq<u8>) -> Result<(int, nat), ErrorKind> {
    match t {
        TagType::U8 => match u8::parse(bytes) {
            Ok((v, n)) => Ok((v as int, n)),
            Err(k) => Err(k),
        },
        TagType::U16 => match u16::parse(bytes) {
            Ok((v, n)) => Ok((v as int, n)),
            Err(k) => Err(k),
        },
        TagType::U32 => match u32::parse(bytes) {
            Ok((v, n)) => Ok((v as int, n)),
            Err(k) => Err(k),
        },
        TagType::U64 => match u64::parse(bytes) {
            Ok((v, n)) => Ok((v as int, n)),
            Err(k) => Err(k),
        },
        TagType::I8 => match i8::parse(bytes) {
            Ok((v, n)) => Ok((v as int, n)),
            Err(k) => Err(k),
        },
        TagType::I16 => match i16::parse(bytes) {
            Ok((v, n)) => Ok((v as int, n)),
            Err(k) => Err(k),
        },
        TagType::I32 => match i32::parse(bytes) {
            Ok((v, n)) => Ok((v as int, n)),
            Err(k) => Err(k),
        },
        TagType::I64 => match i64::parse(bytes) {
            Ok((v, n)) => Ok((v as int, n)),
            Err(k) => Err(k),
        },
    }
}

/// What reading the tag of a union of `count` variants gives: the index of
/// the variant and the width of the tag, or the error met. A tag that names
/// no variant is invalid input.
pub open spec fn variant_parse(t: TagType, count: nat, bytes: Seq<u8>) -> Result<
    (nat, nat),
    ErrorKind,
> {
    match tag_parse(t, bytes) {
        Ok((v, n)) => if 0 <= v < count {
            Ok((v as nat, n))
        } else {
            Err(ErrorKind::InvalidInput)
        },
        Err(k) => Err(k),
    }
}

/// Why a union or record declaration cannot be given a codec.
#[derive(PartialEq, Eq, Structural, Clone, Copy, Debug)]
pub enum DeclError {
    /// The type declares no fields or no variants.
    Empty,
    /// The tag type cannot tell that many variants apart.
    TooManyVariants,
}

/// Checks that a union of `count` variants can be tagged with `t`: it has
/// at least one variant and the last index fits in the tag type.
pub fn check_union(t: TagType, count: usize) -> (res: Result<(), DeclError>)
    ensures
        count == 0 ==> res == Err::<(), DeclError>(DeclError::Empty),
        count > 0 && count - 1 > tag_max(t) ==> res == Err::<(), DeclError>(
            DeclError::TooManyVariants,
        ),
        count > 0 && count - 1 <= tag_max(t) ==> res is Ok,
{
    if count == 0 {
        return Err(DeclError::Empty);
    }
    let last = (count - 1) as u64;
    let fits = match t {
        TagType::U8 => last <= u8::MAX as u64,
        TagType::U16 => last <= u16::MAX as u64,
        TagType::U32 => last <= u32::MAX as u64,
        TagType::U64 => true,
        TagType::I8 => last <= i8::MAX as u64,
        TagType::I16 => last <= i16::MAX as u64,
        TagType::I32 => last <= i32::MAX as u64,
        TagType::I64 => last <= i64::MAX as u64,
    };
    if fits {
        Ok(())
    } else {
        Err(DeclError::TooManyVariants)
    }
}

/// Checks that a record declares at least one field.
pub fn check_record(field_count: usize) -> (res: Result<(), DeclError>)
    ensures
        res is Ok <==> field_count > 0,
        res is Err ==> res == Err::<(), DeclError>(DeclError::Empty),
{
    if field_count == 0 {
        Err(DeclError::Empty)
    } else {
        Ok(())
    }
}

/// Writes the tag of the variant declared at position `index`.
pub fn write_tag(w: &mut Vec<u8>, t: TagType, index: usize)
    requires
        index <= tag_max(t),
    ensures
        final(w)@ == old(w)@ + tag_encoding(t, index as nat),
{
    match t {
        TagType::U8 => (index as u8).serialize(w),
        TagType::U16 => (index as u16).serialize(w),
        TagType::U32 => (index as u32).serialize(w),
        TagType::U64 => (index as u64).serialize(w),
        TagType::I8 => (index as i8).serialize(w),
        TagType::I16 => (index as i16).serialize(w),
        TagType::I32 => (index as i32).serialize(w),
        TagType::I64 => (index as i64).serialize(w),
    }
}

/// Reads a tag of type `t` as a wide integer.
fn read_tag_value(r: &mut ByteReader, t: TagType) -> (res: Result<i128, Error>)
    ensures
        match tag_parse(t, old(r)@) {
            Ok((v, n)) => res == Ok::<i128, Error>(v as i128) && n <= old(r)@.len() && final(r)@
                == old(r)@.skip(n as int),
            Err(k) => res is Err && res->Err_0.spec_kind() == k,
        },
{
    match t {
        TagType::U8 => {
            let v = u8::from_reader(r)?;
            Ok(v as i128)
        },
        TagType::U16 => {
            let v = u16::from_reader(r)?;
            Ok(v as i128)
        },
        TagType::U32 => {
            let v = u32::from_reader(r)?;
            Ok(v as i128)
        },
        TagType::U64 => {
            let v = u64::from_reader(r)?;
            Ok(v as i128)
        },
        TagType::I8 => {
            let v = i8::from_reader(r)?;
            Ok(v as i128)
        },
        TagType::I16 => {
            let v = i16::from_reader(r)?;
            Ok(v as i128)
        },
        TagType::I32 => {
            let v = i32::from_reader(r)?;
            Ok(v as i128)
        },
        TagType::I64 => {
            let v = i64::from_reader(r)?;
            Ok(v as i128)
        },
    }
}

/// Reads the tag of a union of `count` variants and returns the position of
/// the variant it names. A tag that names none fails with invalid input
/// that carries `union_name`.
pub fn read_variant(r: &mut ByteReader, t: TagType, count: usize, union_name: &str) -> (res: Result<
    usize,
    Error,
>)
    ensures
        match variant_parse(t, count as nat, old(r)@) {
            Ok((i, n)) => res == Ok::<usize, Error>(i as usize) && n <= old(r)@.len() && final(r)@
                == old(r)@.skip(n as int),
            Err(k) => res is Err && res->Err_0.spec_kind() == k && (k == ErrorKind::InvalidInput
                ==> res->Err_0->InvalidInput_0@ == union_name@),
        },
{
    let v = read_tag_value(r, t)?;
    if 0 <= v && v < count as i128 {
        Ok(v as usize)
    } else {
        Err(Error::InvalidInput(union_name.to_owned()))
    }
}

/// A tag written for the variant at `index` reads back as that index, in a
/// union of any number of variants above it that the tag type can hold.
pub proof fn lemma_tag_round_trip(t: TagType, count: nat, index: nat, rest: Seq<u8>)
    requires
        index < count,
        count - 1 <= tag_max(t),
    ensures
        variant_parse(t, count, tag_encoding(t, index) + rest) == Ok::<(nat, nat), ErrorKind>(
            (index, tag_encoding(t, index).len()),
        ),
{
    let bytes = tag_encoding(t, index) + rest;
    match t {
        TagType::U8 => u8::lemma_round_trip(&(index as u8), rest),
        TagType::U16 => u16::lemma_round_trip(&(index as u16), rest),
        TagType::U32 => u32::lemma_round_trip(&(index as u32), rest),
        TagType::U64 => u64::lemma_round_trip(&(index as u64), rest),
        TagType::I8 => i8::lemma_round_trip(&(index as i8), rest),
        TagType::I16 => i16::lemma_round_trip(&(index as i16), rest),
        TagType::I32 => i32::lemma_round_trip(&(index as i32), rest),
        TagType::I64 => i64::lemma_round_trip(&(index as i64), rest),
    }
}

/// A strict prefix of a tag is a stream that ends too early.
pub proof fn lemma_tag_truncated(t: TagType, index: nat, k: nat)
    requires
        k < tag_encoding(t, index).len(),
    ensures
        tag_parse(t, tag_encoding(t, index).take(k as int)) == Err::<(int, nat), ErrorKind>(
            ErrorKind::UnexpectedEof,
        ),
{
    match t {
        TagType::U8 => u8::lemma_truncated(&(index as u8), k),
        TagType::U16 => u16::lemma_truncated(&(index as u16), k),
        TagType::U32 => u32::lemma_truncated(&(index as u32), k),
        TagType::U64 => u64::lemma_truncated(&(index as u64), k),
        TagType::I8 => i8::lemma_truncated(&(index as i8), k),
        TagType::I16 => i16::lemma_truncated(&(index as i16), k),
        TagType::I32 => i32::lemma_truncated(&(index as i32), k),
        TagType::I64 => i64::lemma_truncated(&(index as i64), k),
    }
}

} // verus!
