//! Encoding values into a byte sink.

use vstd::prelude::*;
use vstd::bytes::*;
use vstd::utf8::*;

use crate::wire::Wire;

verus! {

/// A type that can write its encoding into a byte sink.
pub trait SerializeIo: Wire {
    /// The bytes that encode this value; an impl that is not verified keeps
    /// this default, of which nothing is known.
    closed spec fn encoding(&self) -> Seq<u8> {
        arbitrary()
    }

    /// Appends the encoding of this value to `w`.
    fn serialize(&self, w: &mut Vec<u8>)
        ensures
            final(w)@ == old(w)@ + self.encoding(),
    ;
}

/// A byte sink that values can be written to.
pub trait ToraWrite {
    /// The bytes written so far.
    spec fn written(&self) -> Seq<u8>;

    /// Encodes `s` and appends its bytes.
    fn writes<S: SerializeIo>(&mut self, s: &S)
        ensures
            final(self).written() == old(self).written() + s.encoding(),
    ;
}

impl ToraWrite for Vec<u8> {
    open spec fn written(&self) -> Seq<u8> {
        self@
    }

    fn writes<S: SerializeIo>(&mut self, s: &S) {
        s.serialize(self)
    }
}

/// Appends every byte of `bytes` to `w`.
pub fn write_all(w: &mut Vec<u8>, bytes: &[u8])
    ensures
        final(w)@ == old(w)@ + bytes@,
{
    let mut i: usize = 0;
    while i < bytes.len()
        invariant
            i <= bytes@.len(),
            w@ == old(w)@ + bytes@.take(i as int),
        decreases bytes@.len() - i,
    {
        w.push(bytes[i]);
        i = i + 1;
        assert(w@ =~= old(w)@ + bytes@.take(i as int));
    }
    assert(bytes@.take(i as int) =~= bytes@);
}

impl Wire for u8 {
    type Model = u8;

    open spec fn model(&self) -> u8 {
        *self
    }
}

impl SerializeIo for u8 {
    open spec fn encoding(&self) -> Seq<u8> {
        seq![*self]
    }

    fn serialize(&self, w: &mut Vec<u8>) {
        w.push(*self);
    }
}

impl Wire for u16 {
    type Model = u16;

    open spec fn model(&self) -> u16 {
        *self
    }
}

impl SerializeIo for u16 {
    open spec fn encoding(&self) -> Seq<u8> {
        spec_u16_to_le_bytes(*self)
    }

    fn serialize(&self, w: &mut Vec<u8>) {
        let b = u16_to_le_bytes(*self);
        write_all(w, b.as_slice());
    }
}

impl Wire for u32 {
    type Model = u32;

    open spec fn model(&self) -> u32 {
        *self
    }
}

impl SerializeIo for u32 {
    open spec fn encoding(&self) -> Seq<u8> {
        spec_u32_to_le_bytes(*self)
    }

    fn serialize(&self, w: &mut Vec<u8>) {
        let b = u32_to_le_bytes(*self);
        write_all(w, b.as_slice());
    }
}

impl Wire for u64 {
    type Model = u64;

    open spec fn model(&self) -> u64 {
        *self
    }
}

impl SerializeIo for u64 {
    open spec fn encoding(&self) -> Seq<u8> {
        spec_u64_to_le_bytes(*self)
    }

    fn serialize(&self, w: &mut Vec<u8>) {
        let b = u64_to_le_bytes(*self);
        write_all(w, b.as_slice());
    }
}

impl Wire for u128 {
    type Model = u128;

    open spec fn model(&self) -> u128 {
        *self
    }
}

impl SerializeIo for u128 {
    open spec fn encoding(&self) -> Seq<u8> {
        spec_u128_to_le_bytes(*self)
    }

    fn serialize(&self, w: &mut Vec<u8>) {
        let b = u128_to_le_bytes(*self);
        write_all(w, b.as_slice());
    }
}

impl Wire for i16 {
    type Model = i16;

    open spec fn model(&self) -> i16 {
        *self
    }
}

impl SerializeIo for i16 {
    open spec fn encoding(&self) -> Seq<u8> {
        spec_u16_to_le_bytes(*self as u16)
    }

    fn serialize(&self, w: &mut Vec<u8>) {
        let b = u16_to_le_bytes(*self as u16);
        write_all(w, b.as_slice());
    }
}

impl Wire for i32 {
    type Model = i32;

    open spec fn model(&self) -> i32 {
        *self
    }
}

impl SerializeIo for i32 {
    open spec fn encoding(&self) -> Seq<u8> {
        spec_u32_to_le_bytes(*self as u32)
    }

    fn serialize(&self, w: &mut Vec<u8>) {
        let b = u32_to_le_bytes(*self as u32);
        write_all(w, b.as_slice());
    }
}

impl Wire for i64 {
    type Model = i64;

    open spec fn model(&self) -> i64 {
        *self
    }
}

impl SerializeIo for i64 {
    open spec fn encoding(&self) -> Seq<u8> {
        spec_u64_to_le_bytes(*self as u64)
    }

    fn serialize(&self, w: &mut Vec<u8>) {
        let b = u64_to_le_bytes(*self as u64);
        write_all(w, b.as_slice());
    }
}

impl Wire for i128 {
    type Model = i128;

    open spec fn model(&self) -> i128 {
        *self
    }
}

impl SerializeIo for i128 {
    open spec fn encoding(&self) -> Seq<u8> {
        spec_u128_to_le_bytes(*self as u128)
    }

    fn serialize(&self, w: &mut Vec<u8>) {
        let b = u128_to_le_bytes(*self as u128);
        write_all(w, b.as_slice());
    }
}

impl Wire for usize {
    type Model = usize;

    open spec fn model(&self) -> usize {
        *self
    }
}

impl SerializeIo for usize {
    open spec fn encoding(&self) -> Seq<u8> {
        spec_u64_to_le_bytes(*self as u64)
    }

    fn serialize(&self, w: &mut Vec<u8>) {
        let b = u64_to_le_bytes(*self as u64);
        write_all(w, b.as_slice());
    }
}

impl Wire for i8 {
    type Model = i8;

    open spec fn model(&self) -> i8 {
        *self
    }
}

impl SerializeIo for i8 {
    open spec fn encoding(&self) -> Seq<u8> {
        seq![*self as u8]
    }

    fn serialize(&self, w: &mut Vec<u8>) {
        w.push(*self as u8);
    }
}

impl Wire for bool {
    type Model = bool;

    open spec fn model(&self) -> bool {
        *self
    }
}

impl SerializeIo for bool {
    /// One byte: 1 for true, 0 for false.
    open spec fn encoding(&self) -> Seq<u8> {
        seq![if *self { 1u8 } else { 0u8 }]
    }

    fn serialize(&self, w: &mut Vec<u8>) {
        w.push(if *self { 1u8 } else { 0u8 });
    }
}

impl Wire for char {
    type Model = char;

    open spec fn model(&self) -> char {
        *self
    }
}

impl SerializeIo for char {
    /// The code point as a little-endian `u32`.
    open spec fn encoding(&self) -> Seq<u8> {
        spec_u32_to_le_bytes(*self as u32)
    }

    fn serialize(&self, w: &mut Vec<u8>) {
        (*self as u32).serialize(w)
    }
}

impl Wire for () {
    type Model = ();

    open spec fn model(&self) -> () {
        ()
    }
}

impl SerializeIo for () {
    /// No bytes at all.
    open spec fn encoding(&self) -> Seq<u8> {
        Seq::empty()
    }

    fn serialize(&self, w: &mut Vec<u8>) {
        assert(old(w)@ + Seq::<u8>::empty() =~= old(w)@);
    }
}

/// `bytes` followed by a NUL byte, unless `bytes` already ends in one.
pub open spec fn nul_terminated(bytes: Seq<u8>) -> Seq<u8> {
    if bytes.len() > 0 && bytes.last() == 0 {
        bytes
    } else {
        bytes.push(0)
    }
}

impl Wire for String {
    type Model = Seq<char>;

    open spec fn model(&self) -> Seq<char> {
        self@
    }
}

impl SerializeIo for String {
    /// The UTF-8 bytes, NUL-terminated.
    open spec fn encoding(&self) -> Seq<u8> {
        nul_terminated(encode_utf8(self@))
    }

    fn serialize(&self, w: &mut Vec<u8>) {
        self.as_str().serialize(w)
    }
}

impl<'a> Wire for &'a str {
    type Model = Seq<char>;

    open spec fn model(&self) -> Seq<char> {
        self@
    }
}

impl<'a> SerializeIo for &'a str {
    /// The UTF-8 bytes, NUL-terminated.
    open spec fn encoding(&self) -> Seq<u8> {
        nul_terminated(encode_utf8(self@))
    }

    fn serialize(&self, w: &mut Vec<u8>) {
        let b = self.as_bytes();
        write_all(w, b);
        if !(b.len() > 0 && b[b.len() - 1] == 0) {
            w.push(0);
            assert(w@ =~= old(w)@ + encode_utf8(self@).push(0));
        }
    }
}

impl<T: Wire> Wire for Option<T> {
    type Model = Option<T::Model>;

    open spec fn model(&self) -> Option<T::Model> {
        match self {
            Some(v) => Some(v.model()),
            None => None,
        }
    }
}

impl<T: SerializeIo> SerializeIo for Option<T> {
    /// A presence flag, then the value if there is one.
    open spec fn encoding(&self) -> Seq<u8> {
        match self {
            Some(v) => seq![1u8] + v.encoding(),
            None => seq![0u8],
        }
    }

    fn serialize(&self, w: &mut Vec<u8>) {
        match self {
            Some(v) => {
                w.push(1);
                v.serialize(w);
                assert(final(w)@ =~= old(w)@ + self.encoding());
            },
            None => {
                w.push(0);
            },
        }
    }
}

impl<T: Wire, E: Wire> Wire for Result<T, E> {
    type Model = Result<T::Model, E::Model>;

    open spec fn model(&self) -> Result<T::Model, E::Model> {
        match self {
            Ok(v) => Ok(v.model()),
            Err(e) => Err(e.model()),
        }
    }
}

impl<T: SerializeIo, E: SerializeIo> SerializeIo for Result<T, E> {
    /// An "is error" flag, then the error or the success value.
    open spec fn encoding(&self) -> Seq<u8> {
        match self {
            Ok(v) => seq![0u8] + v.encoding(),
            Err(e) => seq![1u8] + e.encoding(),
        }
    }

    fn serialize(&self, w: &mut Vec<u8>) {
        match self {
            Ok(v) => {
                w.push(0);
                v.serialize(w);
            },
            Err(e) => {
                w.push(1);
                e.serialize(w);
            },
        }
        assert(final(w)@ =~= old(w)@ + self.encoding());
    }
}

impl<T: Wire, Z: Wire> Wire for (T, Z) {
    type Model = (T::Model, Z::Model);

    open spec fn model(&self) -> (T::Model, Z::Model) {
        (self.0.model(), self.1.model())
    }
}

impl<T: SerializeIo, Z: SerializeIo> SerializeIo for (T, Z) {
    /// The components in order.
    open spec fn encoding(&self) -> Seq<u8> {
        self.0.encoding() + self.1.encoding()
    }

    fn serialize(&self, w: &mut Vec<u8>) {
        self.0.serialize(w);
        self.1.serialize(w);
        assert(final(w)@ =~= old(w)@ + self.encoding());
    }
}

impl<T: Wire, Z: Wire, H: Wire> Wire for (T, Z, H) {
    type Model = (T::Model, Z::Model, H::Model);

    open spec fn model(&self) -> (T::Model, Z::Model, H::Model) {
        (self.0.model(), self.1.model(), self.2.model())
    }
}

impl<T: SerializeIo, Z: SerializeIo, H: SerializeIo> SerializeIo for (T, Z, H) {
    /// The components in order.
    open spec fn encoding(&self) -> Seq<u8> {
        self.0.encoding() + self.1.encoding() + self.2.encoding()
    }

    fn serialize(&self, w: &mut Vec<u8>) {
        self.0.serialize(w);
        self.1.serialize(w);
        self.2.serialize(w);
        assert(final(w)@ =~= old(w)@ + self.encoding());
    }
}

/// The encodings of `items`, one after another.
pub open spec fn encode_all<T: SerializeIo>(items: Seq<T>) -> Seq<u8>
    decreases items.len(),
{
    if items.len() == 0 {
        Seq::empty()
    } else {
        encode_all(items.drop_last()) + items.last().encoding()
    }
}

/// `encode_all` read from the front: the first item, then the others.
pub proof fn lemma_encode_all_front<T: SerializeIo>(items: Seq<T>)
    requires
        items.len() > 0,
    ensures
        encode_all(items) == items[0].encoding() + encode_all(items.drop_first()),
    decreases items.len(),
{
    if items.len() > 1 {
        lemma_encode_all_front(items.drop_last());
        assert(items.drop_last().drop_first() =~= items.drop_first().drop_last());
        assert(encode_all(items) =~= items[0].encoding() + encode_all(items.drop_first()));
    } else {
        assert(items.drop_last() =~= Seq::<T>::empty());
        assert(items.drop_first() =~= Seq::<T>::empty());
        assert(encode_all(items) =~= items[0].encoding() + encode_all(items.drop_first()));
    }
}

impl<T: Wire> Wire for Vec<T> {
    type Model = Seq<T::Model>;

    open spec fn model(&self) -> Seq<T::Model> {
        self@.map_values(|x: T| x.model())
    }
}

impl<T: SerializeIo> SerializeIo for Vec<T> {
    /// The number of items as a little-endian `u32`, then each item.
    open spec fn encoding(&self) -> Seq<u8> {
        spec_u32_to_le_bytes(self@.len() as u32) + encode_all(self@)
    }

    fn serialize(&self, w: &mut Vec<u8>) {
        self.as_slice().serialize(w)
    }
}

impl<'a, T: Wire> Wire for &'a [T] {
    type Model = Seq<T::Model>;

    open spec fn model(&self) -> Seq<T::Model> {
        self@.map_values(|x: T| x.model())
    }
}

impl<'a, T: SerializeIo> SerializeIo for &'a [T] {
    /// The number of items as a little-endian `u32`, then each item.
    open spec fn encoding(&self) -> Seq<u8> {
        spec_u32_to_le_bytes(self@.len() as u32) + encode_all(self@)
    }

    fn serialize(&self, w: &mut Vec<u8>) {
        (self.len() as u32).serialize(w);
        let ghost head = w@;
        let mut i: usize = 0;
        while i < self.len()
            invariant
                i <= self@.len(),
                head == old(w)@ + spec_u32_to_le_bytes(self@.len() as u32),
                w@ == head + encode_all(self@.take(i as int)),
            decreases self@.len() - i,
        {
            self[i].serialize(w);
            i = i + 1;
            assert(self@.take(i as int).drop_last() =~= self@.take(i - 1));
            assert(w@ =~= head + encode_all(self@.take(i as int)));
        }
        assert(self@.take(i as int) =~= self@);
        assert(w@ =~= old(w)@ + self.encoding());
    }
}

impl<T: Wire, const N: usize> Wire for [T; N] {
    type Model = Seq<T::Model>;

    open spec fn model(&self) -> Seq<T::Model> {
        self@.map_values(|x: T| x.model())
    }
}

impl<T: SerializeIo, const N: usize> SerializeIo for [T; N] {
    /// Each item in order, with no count before them.
    open spec fn encoding(&self) -> Seq<u8> {
        encode_all(self@)
    }

    fn serialize(&self, w: &mut Vec<u8>) {
        let mut i: usize = 0;
        while i < N
            invariant
                i <= N,
                self@.len() == N,
                w@ == old(w)@ + encode_all(self@.take(i as int)),
            decreases N - i,
        {
            self[i].serialize(w);
            i = i + 1;
            assert(self@.take(i as int).drop_last() =~= self@.take(i - 1));
            assert(w@ =~= old(w)@ + encode_all(self@.take(i as int)));
        }
        assert(self@.take(i as int) =~= self@);
    }
}

impl<T: Wire> Wire for Box<T> {
    type Model = T::Model;

    open spec fn model(&self) -> T::Model {
        (**self).model()
    }
}

impl<T: SerializeIo> SerializeIo for Box<T> {
    /// The encoding of the boxed value.
    open spec fn encoding(&self) -> Seq<u8> {
        (**self).encoding()
    }

    fn serialize(&self, w: &mut Vec<u8>) {
        (**self).serialize(w)
    }
}

} // verus!
