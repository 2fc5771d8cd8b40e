//! The byte source that the decoder reads and the byte sink that the encoder fills.
use vstd::prelude::*;
use crate::error::Error;

verus! {

/// A source of bytes, read from the front.
pub trait Reader {
    /// The bytes not read yet.
    spec fn unread(&self) -> Seq<u8>;

    /// Takes the next byte.
    fn read_byte(&mut self) -> (r: Result<u8, Error>)
        ensures
            old(self).unread().len() == 0 ==> r == Err::<u8, Error>(Error::Truncated)
                && final(self).unread() == old(self).unread(),
            old(self).unread().len() > 0 ==> r == Ok::<u8, Error>(old(self).unread()[0])
                && final(self).unread() == old(self).unread().drop_first(),
    ;

    /// Takes the next `n` bytes as one block.
    fn read_n_bytes(&mut self, n: usize) -> (r: Result<Vec<u8>, Error>)
        ensures
            old(self).unread().len() < n ==> r is Err && r->Err_0 == Error::Truncated
                && final(self).unread() == old(self).unread(),
            old(self).unread().len() >= n ==> r is Ok && r->Ok_0@ == old(self).unread().take(
                n as int,
            ) && final(self).unread() == old(self).unread().skip(n as int),
    ;
}

/// A reader over bytes held in memory.
pub struct VecReader {
    pub input: Vec<u8>,
    pub position: usize,
}

impl VecReader {
    pub fn new(input: Vec<u8>) -> (r: VecReader)
        ensures
            r.unread() == input@,
    {
        let r = VecReader { input, position: 0 };
        assert(r.input@.skip(0) =~= r.input@);
        r
    }
}

impl Reader for VecReader {
    open spec fn unread(&self) -> Seq<u8> {
        if self.position <= self.input@.len() {
            self.input@.skip(self.position as int)
        } else {
            Seq::empty()
        }
    }

    fn read_byte(&mut self) -> (r: Result<u8, Error>) {
        if self.position < self.input.len() {
            let b = self.input[self.position];
            self.position = self.position + 1;
            assert(old(self).unread().drop_first() =~= self.unread());
            Ok(b)
        } else {
            Err(Error::Truncated)
        }
    }

    fn read_n_bytes(&mut self, n: usize) -> (r: Result<Vec<u8>, Error>) {
        if self.position > self.input.len() {
            if n == 0 {
                assert(self.unread().take(0) =~= Seq::<u8>::empty());
                return Ok(Vec::new());
            }
            return Err(Error::Truncated);
        }
        if self.input.len() - self.position < n {
            return Err(Error::Truncated);
        }
        let mut out: Vec<u8> = Vec::with_capacity(n);
        let start = self.position;
        let len = self.input.len();
        let ghost s = self.unread();
        let mut i: usize = 0;
        while i < n
            invariant
                i <= n,
                len == self.input@.len(),
                start + n <= len,
                self.position == start,
                s == self.input@.skip(start as int),
                out@ == s.take(i as int),
            decreases n - i,
        {
            out.push(self.input[start + i]);
            assert(s.take(i + 1) =~= s.take(i as int).push(s[i as int]));
            i = i + 1;
        }
        self.position = start + n;
        assert(self.unread() =~= s.skip(n as int));
        Ok(out)
    }
}

/// A sink that appends bytes to a growing buffer.
pub struct VecWriter {
    pub output: Vec<u8>,
}

impl VecWriter {
    pub fn new() -> (r: VecWriter)
        ensures
            r.output@ == Seq::<u8>::empty(),
    {
        VecWriter { output: Vec::with_capacity(128) }
    }

    /// Appends `bytes` to the end of the output.
    pub fn write_bytes(&mut self, bytes: Vec<u8>)
        ensures
            final(self).output@ == old(self).output@ + bytes@,
    {
        let mut bytes = bytes;
        self.output.append(&mut bytes);
    }
}

} // verus!
