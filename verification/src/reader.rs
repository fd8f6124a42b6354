//! A cursor over bytes in memory, from which the decoders read.
use crate::transaction::{Error, IoError};
use crate::wire::{dec_compact_size, dec_raw, dec_u16, dec_u32, dec_u64, dec_u8, dec_array32};
use vstd::prelude::*;

verus! {

/// Bytes and the position of the next byte to read.
pub struct Reader<'a> {
    data: &'a [u8],
    pos: usize,
}

impl<'a> Reader<'a> {
    /// All the bytes, read or not.
    pub closed spec fn input(&self) -> Seq<u8> {
        self.data@
    }

    /// How many bytes have been read.
    pub closed spec fn position(&self) -> int {
        self.pos as int
    }

    /// The bytes not yet read.
    pub open spec fn remaining(&self) -> Seq<u8> {
        self.input().skip(self.position())
    }

    /// The position lies within the input.
    pub closed spec fn wf(&self) -> bool {
        self.pos <= self.data@.len() <= usize::MAX
    }

    /// The position of a well-formed reader lies within its input.
    pub proof fn lemma_bounds(&self)
        requires
            self.wf(),
        ensures
            0 <= self.position() <= self.input().len(),
            self.remaining().len() == self.input().len() - self.position(),
    {
    }

    /// Starts reading at the first byte of `data`.
    pub fn new(data: &'a [u8]) -> (r: Self)
        ensures
            r.wf(),
            r.input() == data@,
            r.position() == 0,
            r.remaining() == data@,
    {
        let _n = data.len();
        let r = Reader { data, pos: 0 };
        assert(r.remaining() =~= data@);
        r
    }

    /// How many bytes have been read.
    pub fn consumed(&self) -> (n: usize)
        requires
            self.wf(),
        ensures
            n == self.position(),
    {
        self.pos
    }

    proof fn lemma_advance(&self, n: int)
        requires
            self.wf(),
            0 <= n <= self.remaining().len(),
        ensures
            self.remaining().skip(n) == self.input().skip(self.position() + n),
            self.remaining().take(n) == self.input().subrange(
                self.position(),
                self.position() + n,
            ),
    {
        assert(self.remaining().skip(n) =~= self.input().skip(self.position() + n));
        assert(self.remaining().take(n) =~= self.input().subrange(
            self.position(),
            self.position() + n,
        ));
    }

    /// Takes the next `n` bytes, which must be there.
    fn take_slice(&mut self, n: usize) -> (out: &'a [u8])
        requires
            old(self).wf(),
            n <= old(self).remaining().len(),
        ensures
            final(self).wf(),
            final(self).input() == old(self).input(),
            final(self).position() == old(self).position() + n,
            out@ == old(self).remaining().take(n as int),
            final(self).remaining() == old(self).remaining().skip(n as int),
    {
        proof {
            self.lemma_advance(n as int);
        }
        let out = vstd::slice::slice_subrange(self.data, self.pos, self.pos + n);
        self.pos = self.pos + n;
        out
    }

    /// Reads one byte.
    pub fn read_u8(&mut self) -> (res: Result<u8, Error>)
        requires
            old(self).wf(),
        ensures
            final(self).wf(),
            final(self).input() == old(self).input(),
            match dec_u8(old(self).remaining()) {
                Ok((v, n)) => res == Ok::<u8, Error>(v) && final(self).position()
                    == old(self).position() + n,
                Err((e, n)) => res == Err::<u8, Error>(e) && final(self).position()
                    == old(self).position() + n,
            },
    {
        if self.data.len() - self.pos < 1 {
            self.pos = self.data.len();
            return Err(Error::Io(IoError::UnexpectedEof));
        }
        let s = self.take_slice(1);
        Ok(s[0])
    }

    /// Reads a little-endian `u16`.
    pub fn read_u16(&mut self) -> (res: Result<u16, Error>)
        requires
            old(self).wf(),
        ensures
            final(self).wf(),
            final(self).input() == old(self).input(),
            match dec_u16(old(self).remaining()) {
                Ok((v, n)) => res == Ok::<u16, Error>(v) && final(self).position()
                    == old(self).position() + n,
                Err((e, n)) => res == Err::<u16, Error>(e) && final(self).position()
                    == old(self).position() + n,
            },
    {
        if self.data.len() - self.pos < 2 {
            self.pos = self.data.len();
            return Err(Error::Io(IoError::UnexpectedEof));
        }
        let s = self.take_slice(2);
        Ok(vstd::bytes::u16_from_le_bytes(s))
    }

    /// Reads a little-endian `u32`.
    pub fn read_u32(&mut self) -> (res: Result<u32, Error>)
        requires
            old(self).wf(),
        ensures
            final(self).wf(),
            final(self).input() == old(self).input(),
            match dec_u32(old(self).remaining()) {
                Ok((v, n)) => res == Ok::<u32, Error>(v) && final(self).position()
                    == old(self).position() + n,
                Err((e, n)) => res == Err::<u32, Error>(e) && final(self).position()
                    == old(self).position() + n,
            },
    {
        if self.data.len() - self.pos < 4 {
            self.pos = self.data.len();
            return Err(Error::Io(IoError::UnexpectedEof));
        }
        let s = self.take_slice(4);
        Ok(vstd::bytes::u32_from_le_bytes(s))
    }

    /// Reads a little-endian `u64`.
    pub fn read_u64(&mut self) -> (res: Result<u64, Error>)
        requires
            old(self).wf(),
        ensures
            final(self).wf(),
            final(self).input() == old(self).input(),
            match dec_u64(old(self).remaining()) {
                Ok((v, n)) => res == Ok::<u64, Error>(v) && final(self).position()
                    == old(self).position() + n,
                Err((e, n)) => res == Err::<u64, Error>(e) && final(self).position()
                    == old(self).position() + n,
            },
    {
        if self.data.len() - self.pos < 8 {
            self.pos = self.data.len();
            return Err(Error::Io(IoError::UnexpectedEof));
        }
        let s = self.take_slice(8);
        Ok(vstd::bytes::u64_from_le_bytes(s))
    }

    /// Reads 32 bytes.
    pub fn read_array32(&mut self) -> (res: Result<[u8; 32], Error>)
        requires
            old(self).wf(),
        ensures
            final(self).wf(),
            final(self).input() == old(self).input(),
            match dec_array32(old(self).remaining()) {
                Ok((v, n)) => res matches Ok(a) && a@ == v && final(self).position()
                    == old(self).position() + n,
                Err((e, n)) => res == Err::<[u8; 32], Error>(e) && final(self).position()
                    == old(self).position() + n,
            },
    {
        if self.data.len() - self.pos < 32 {
            self.pos = self.data.len();
            return Err(Error::Io(IoError::UnexpectedEof));
        }
        let s = self.take_slice(32);
        let mut buffer = [0u8; 32];
        let mut i: usize = 0;
        while i < 32
            invariant
                i <= 32,
                s@.len() == 32,
                forall|j: int| 0 <= j < i ==> buffer@[j] == s@[j],
            decreases 32 - i,
        {
            buffer[i] = s[i];
            i = i + 1;
        }
        assert(buffer@ =~= s@);
        Ok(buffer)
    }

    /// Reads a length as a compact size, then that many bytes.
    pub fn read_raw(&mut self) -> (res: Result<Vec<u8>, Error>)
        requires
            old(self).wf(),
        ensures
            final(self).wf(),
            final(self).input() == old(self).input(),
            match dec_raw(old(self).remaining()) {
                Ok((v, n)) => res matches Ok(b) && b@ == v && final(self).position()
                    == old(self).position() + n,
                Err((e, n)) => res == Err::<Vec<u8>, Error>(e) && final(self).position()
                    == old(self).position() + n,
            },
    {
        proof {
            reveal(dec_raw);
        }
        let ghost s = self.remaining();
        let len = match self.read_compact_size() {
            Ok(n) => n,
            Err(e) => return Err(e),
        };
        let ghost k = s.len() - self.remaining().len();
        if len > (self.data.len() - self.pos) as u64 {
            self.pos = self.data.len();
            return Err(Error::Io(IoError::UnexpectedEof));
        }
        let out = self.take_slice(len as usize);
        assert(out@ =~= s.subrange(k, k + len));
        Ok(vstd::slice::slice_to_vec(out))
    }

    /// Reads a compact size: one byte below `0xFD`, or a tag byte `0xFD`, `0xFE`, `0xFF`
    /// followed by a little-endian `u16`, `u32` or `u64`.
    pub fn read_compact_size(&mut self) -> (res: Result<u64, Error>)
        requires
            old(self).wf(),
        ensures
            final(self).wf(),
            final(self).input() == old(self).input(),
            match dec_compact_size(old(self).remaining()) {
                Ok((v, n)) => res == Ok::<u64, Error>(v) && final(self).position()
                    == old(self).position() + n,
                Err((e, n)) => res == Err::<u64, Error>(e) && final(self).position()
                    == old(self).position() + n,
            },
    {
        proof {
            reveal(dec_compact_size);
        }
        let ghost s = self.remaining();
        let n = match self.read_u8() {
            Ok(n) => n,
            Err(e) => return Err(e),
        };
        assert(self.remaining() =~= s.skip(1));
        if n == 0xFF {
            match self.read_u64() {
                Ok(x) => Ok(x),
                Err(e) => Err(e),
            }
        } else if n == 0xFE {
            match self.read_u32() {
                Ok(x) => Ok(x as u64),
                Err(e) => Err(e),
            }
        } else if n == 0xFD {
            match self.read_u16() {
                Ok(x) => Ok(x as u64),
                Err(e) => Err(e),
            }
        } else {
            Ok(n as u64)
        }
    }
}

} // verus!
