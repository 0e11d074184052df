//! A bounds-checked read cursor over a byte slice.
use vstd::prelude::*;

use crate::encoding::byte_as_i8;
use crate::error::{Error, Result};

verus! {

pub struct Buf<'src> {
    src: &'src [u8],
    cursor: usize,
}

impl<'src> Buf<'src> {
    #[verifier::type_invariant]
    spec fn inv(&self) -> bool {
        self.cursor <= self.src@.len()
    }

    /// The bytes not read yet.
    pub closed spec fn rest(&self) -> Seq<u8> {
        self.src@.subrange(self.cursor as int, self.src@.len() as int)
    }

    pub fn new(src: &'src [u8]) -> (r: Self)
        ensures
            r.rest() == src@,
    {
        let r = Buf { src, cursor: 0 };
        assert(r.rest() =~= src@);
        r
    }

    /// Number of bytes not read yet.
    pub fn remaining(&self) -> (r: usize)
        ensures
            r == self.rest().len(),
    {
        proof {
            use_type_invariant(self);
        }
        self.src.len() - self.cursor
    }

    pub fn peek_u8(&self) -> (r: Result<u8>)
        ensures
            match r {
                Ok(b) => self.rest().len() > 0 && b == self.rest()[0],
                Err(e) => self.rest().len() == 0 && e is EOF,
            },
    {
        proof {
            use_type_invariant(self);
        }
        if self.cursor < self.src.len() {
            Ok(self.src[self.cursor])
        } else {
            Err(Error::EOF)
        }
    }

    pub fn read_u8(&mut self) -> (r: Result<u8>)
        ensures
            match r {
                Ok(b) => {
                    &&& old(self).rest().len() > 0
                    &&& b == old(self).rest()[0]
                    &&& final(self).rest() == old(self).rest().drop_first()
                },
                Err(e) => old(self).rest().len() == 0 && e is EOF && final(self).rest() == old(
                    self,
                ).rest(),
            },
    {
        proof {
            use_type_invariant(&*self);
        }
        if self.cursor < self.src.len() {
            let b = self.src[self.cursor];
            self.cursor = self.cursor + 1;
            assert(self.rest() =~= old(self).rest().drop_first());
            Ok(b)
        } else {
            Err(Error::EOF)
        }
    }

    pub fn peek_i8(&self) -> (r: Result<i8>)
        ensures
            match r {
                Ok(b) => self.rest().len() > 0 && b == byte_as_i8(self.rest()[0]),
                Err(e) => self.rest().len() == 0 && e is EOF,
            },
    {
        match self.peek_u8() {
            Ok(b) => Ok(u8_as_i8(b)),
            Err(e) => Err(e),
        }
    }

    pub fn read_i8(&mut self) -> (r: Result<i8>)
        ensures
            match r {
                Ok(b) => {
                    &&& old(self).rest().len() > 0
                    &&& b == byte_as_i8(old(self).rest()[0])
                    &&& final(self).rest() == old(self).rest().drop_first()
                },
                Err(e) => old(self).rest().len() == 0 && e is EOF && final(self).rest() == old(
                    self,
                ).rest(),
            },
    {
        match self.read_u8() {
            Ok(b) => Ok(u8_as_i8(b)),
            Err(e) => Err(e),
        }
    }

    /// The next `len` bytes, borrowed from the source.
    pub fn read_slice(&mut self, len: usize) -> (r: Result<&'src [u8]>)
        ensures
            match r {
                Ok(s) => {
                    &&& len <= old(self).rest().len()
                    &&& s@ == old(self).rest().take(len as int)
                    &&& final(self).rest() == old(self).rest().skip(len as int)
                },
                Err(e) => len > old(self).rest().len() && e is EOF && final(self).rest() == old(
                    self,
                ).rest(),
            },
    {
        proof {
            use_type_invariant(&*self);
        }
        if self.src.len() - self.cursor < len {
            Err(Error::EOF)
        } else {
            let start = self.cursor;
            self.cursor = self.cursor + len;
            assert(self.rest() =~= old(self).rest().skip(len as int));
            let s = vstd::slice::slice_subrange(self.src, start, self.cursor);
            assert(s@ =~= old(self).rest().take(len as int));
            Ok(s)
        }
    }

    /// Fills `buf` with as many of the next bytes as there are, and returns
    /// how many it filled.
    pub fn read(&mut self, buf: &mut [u8]) -> (n: usize)
        ensures
            n == if old(buf)@.len() < old(self).rest().len() {
                old(buf)@.len()
            } else {
                old(self).rest().len()
            },
            final(buf)@.len() == old(buf)@.len(),
            final(buf)@.take(n as int) == old(self).rest().take(n as int),
            final(buf)@.skip(n as int) == old(buf)@.skip(n as int),
            final(self).rest() == old(self).rest().skip(n as int),
    {
        proof {
            use_type_invariant(&*self);
        }
        let avail = self.src.len() - self.cursor;
        let n = if buf.len() < avail {
            buf.len()
        } else {
            avail
        };
        let mut i: usize = 0;
        assert(self.src@.len() == self.src.len());
        while i < n
            invariant
                0 <= i <= n,
                n <= buf@.len(),
                n <= avail,
                avail == self.src@.len() - self.cursor,
                self.cursor + avail == self.src@.len(),
                self.src@.len() <= usize::MAX,
                self.cursor == old(self).cursor,
                self.src == old(self).src,
                buf@.len() == old(buf)@.len(),
                forall|j: int| 0 <= j < i ==> buf@[j] == self.src@[self.cursor + j],
                forall|j: int| n <= j < buf@.len() ==> buf@[j] == old(buf)@[j],
            decreases n - i,
        {
            buf[i] = self.src[self.cursor + i];
            i = i + 1;
        }
        self.cursor = self.cursor + n;
        assert(buf@.take(n as int) =~= old(self).rest().take(n as int));
        assert(buf@.skip(n as int) =~= old(buf)@.skip(n as int));
        assert(self.rest() =~= old(self).rest().skip(n as int));
        n
    }
}

/// The byte `b` read as a signed 8-bit integer.
pub(crate) fn u8_as_i8(b: u8) -> (r: i8)
    ensures
        r == byte_as_i8(b),
{
    if b >= 128 {
        (b as i16 - 256) as i8
    } else {
        b as i8
    }
}

} // verus!
