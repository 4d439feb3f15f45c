//! The model a wire type stands for, and the round-trip laws.

use vstd::prelude::*;

use crate::read::FromReader;
use crate::stream::ErrorKind;
use crate::write::SerializeIo;

verus! {

/// A type with a wire encoding, and the mathematical value that a value of
/// it stands for.
pub trait Wire {
    type Model;

    /// The value this stands for; an impl that is not verified keeps this
    /// default, of which nothing is known.
    closed spec fn model(&self) -> Self::Model {
        arbitrary()
    }
}

/// A type whose decoder undoes its encoder.
pub trait RoundTrip: SerializeIo + FromReader {
    /// The values that survive a round trip (a string with a NUL inside it
    /// does not).
    spec fn faithful(&self) -> bool;

    /// Decoding the encoding of a faithful value, followed by any bytes,
    /// yields that value and consumes exactly its encoding.
    proof fn lemma_round_trip(v: &Self, rest: Seq<u8>)
        requires
            v.faithful(),
        ensures
            Self::parse(v.encoding() + rest) == Ok::<(Self::Model, nat), ErrorKind>(
                (v.model(), v.encoding().len()),
            ),
    ;

    /// A strict prefix of the encoding of a faithful value is a stream that
    /// ends too early: decoding it fails with an unexpected end.
    proof fn lemma_truncated(v: &Self, k: nat)
        requires
            v.faithful(),
            k < v.encoding().len(),
        ensures
            Self::parse(v.encoding().take(k as int)) == Err::<(Self::Model, nat), ErrorKind>(
                ErrorKind::UnexpectedEof,
            ),
    ;
}

} // verus!
