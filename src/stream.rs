//! The byte source that values are decoded from, and decoding errors.

use vstd::prelude::*;

verus! {

/// What went wrong while decoding.
#[derive(Debug)]
pub enum Error {
    /// The stream ended before the value was complete.
    UnexpectedEof,
    /// The bytes read do not form a value of the requested type.
    InvalidData,
    /// A tagged union's tag names no variant; the payload names the type.
    InvalidInput(String),
}

/// The kind of a decoding error, as contracts speak of it.
#[derive(PartialEq, Eq, Structural, Clone, Copy, Debug)]
pub enum ErrorKind {
    UnexpectedEof,
    InvalidData,
    InvalidInput,
}

impl Error {
    pub open spec fn spec_kind(&self) -> ErrorKind {
        match self {
            Error::UnexpectedEof => ErrorKind::UnexpectedEof,
            Error::InvalidData => ErrorKind::InvalidData,
            Error::InvalidInput(_) => ErrorKind::InvalidInput,
        }
    }

    /// The kind of this error.
    #[verifier::when_used_as_spec(spec_kind)]
    pub fn kind(&self) -> (k: ErrorKind)
        ensures
            k == self.spec_kind(),
    {
        match self {
            Error::UnexpectedEof => ErrorKind::UnexpectedEof,
            Error::InvalidData => ErrorKind::InvalidData,
            Error::InvalidInput(_) => ErrorKind::InvalidInput,
        }
    }
}

/// A byte source over an owned buffer: the bytes before the cursor have been
/// consumed, those after it are still to be read.
pub struct ByteReader {
    bytes: Vec<u8>,
    pos: usize,
}

impl View for ByteReader {
    type V = Seq<u8>;

    /// The bytes not read yet.
    closed spec fn view(&self) -> Seq<u8> {
        self.bytes@.subrange(self.pos as int, self.bytes@.len() as int)
    }
}

impl ByteReader {
    #[verifier::type_invariant]
    closed spec fn inv(self) -> bool {
        self.pos <= self.bytes@.len()
    }

    /// A reader positioned at the first of `bytes`.
    pub fn new(bytes: Vec<u8>) -> (r: ByteReader)
        ensures
            r@ == bytes@,
    {
        let r = ByteReader { bytes, pos: 0 };
        assert(r@ =~= bytes@);
        r
    }

    /// The number of bytes not read yet.
    pub fn remaining(&self) -> (n: usize)
        ensures
            n == self@.len(),
    {
        proof { use_type_invariant(self); }
        self.bytes.len() - self.pos
    }

    /// Reads one byte.
    pub fn read_byte(&mut self) -> (res: Result<u8, Error>)
        ensures
            old(self)@.len() > 0 ==> res == Ok::<u8, Error>(old(self)@[0])
                && final(self)@ == old(self)@.drop_first(),
            old(self)@.len() == 0 ==> res is Err && res->Err_0.spec_kind() == ErrorKind::UnexpectedEof
                && final(self)@ == old(self)@,
    {
        proof { use_type_invariant(&*self); }
        if self.pos < self.bytes.len() {
            let b = self.bytes[self.pos];
            self.pos = self.pos + 1;
            assert(self@ =~= old(self)@.drop_first());
            Ok(b)
        } else {
            Err(Error::UnexpectedEof)
        }
    }

    /// Reads exactly `n` bytes, or fails without consuming any when fewer remain.
    pub fn read_exact(&mut self, n: usize) -> (res: Result<Vec<u8>, Error>)
        ensures
            n <= old(self)@.len() ==> res is Ok && res->Ok_0@ == old(self)@.take(n as int)
                && final(self)@ == old(self)@.skip(n as int),
            n > old(self)@.len() ==> res is Err && res->Err_0.spec_kind() == ErrorKind::UnexpectedEof
                && final(self)@ == old(self)@,
    {
        proof { use_type_invariant(&*self); }
        if n > self.bytes.len() - self.pos {
            return Err(Error::UnexpectedEof);
        }
        let mut out: Vec<u8> = Vec::new();
        let mut i: usize = 0;
        while i < n
            invariant
                i <= n,
                self.pos + n <= self.bytes@.len(),
                self.bytes@.len() <= usize::MAX,
                out@ == self.bytes@.subrange(self.pos as int, self.pos + i),
            decreases n - i,
        {
            out.push(self.bytes[self.pos + i]);
            i = i + 1;
            assert(out@ =~= self.bytes@.subrange(self.pos as int, self.pos + i));
        }
        self.pos = self.pos + n;
        assert(out@ =~= old(self)@.take(n as int));
        assert(self@ =~= old(self)@.skip(n as int));
        Ok(out)
    }

    /// Discards exactly `n` bytes, or fails without consuming any when fewer
    /// remain.
    pub fn skip(&mut self, n: usize) -> (res: Result<(), Error>)
        ensures
            n <= old(self)@.len() ==> res is Ok && final(self)@ == old(self)@.skip(n as int),
            n > old(self)@.len() ==> res is Err && res->Err_0.spec_kind() == ErrorKind::UnexpectedEof
                && final(self)@ == old(self)@,
    {
        proof { use_type_invariant(&*self); }
        if n > self.bytes.len() - self.pos {
            return Err(Error::UnexpectedEof);
        }
        self.pos = self.pos + n;
        assert(self@ =~= old(self)@.skip(n as int));
        Ok(())
    }
}

} // verus!
