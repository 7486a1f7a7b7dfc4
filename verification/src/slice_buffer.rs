//! A byte buffer with a cursor, for decoding the packed encodings that are
//! stored inside snapshot strings.
use crate::errors::RdbError;
use vstd::prelude::*;

verus! {

/// The largest position a cursor may take.
pub const MAX_POSITION: i32 = 0x7fff_ffff;

/// A sequence of bytes and a cursor into it. The cursor is never negative; it
/// may stand beyond the last byte after a seek, where every read fails.
pub struct sliceBuffer {
    pub(crate) s: Vec<u8>,
    pub(crate) i: i32,
}

/// What taking `n` bytes at `pos` out of `bytes` gives: the bytes and the
/// position behind them.
pub open spec fn spec_slice(bytes: Seq<u8>, pos: int, n: int) -> Result<(Seq<u8>, int), RdbError> {
    if n < 0 || pos + n > bytes.len() {
        Err(RdbError::Io)
    } else if pos + n > MAX_POSITION {
        Err(RdbError::PositionOutOfRange)
    } else {
        Ok((bytes.subrange(pos, pos + n), pos + n))
    }
}

/// What reading one byte at `pos` gives: the byte and the position behind it.
pub open spec fn spec_byte(bytes: Seq<u8>, pos: int) -> Result<(u8, int), RdbError> {
    if pos >= bytes.len() {
        Err(RdbError::Io)
    } else if pos + 1 > MAX_POSITION {
        Err(RdbError::PositionOutOfRange)
    } else {
        Ok((bytes[pos], pos + 1))
    }
}

/// Where a seek lands, as a mathematical integer, or why it fails.
pub open spec fn spec_seek(len: int, pos: int, offset: int, whence: int) -> Result<int, RdbError> {
    if whence != 0 && whence != 1 && whence != 2 {
        Err(RdbError::InvalidWhence)
    } else {
        let base = if whence == 0 {
            0
        } else if whence == 1 {
            pos
        } else {
            len
        };
        if base + offset < 0 {
            Err(RdbError::NegativePosition)
        } else if base + offset > MAX_POSITION {
            Err(RdbError::PositionOutOfRange)
        } else {
            Ok(base + offset)
        }
    }
}

impl sliceBuffer {
    #[verifier::type_invariant]
    spec fn cursor_not_negative(self) -> bool {
        0 <= self.i
    }

    /// The bytes held.
    pub closed spec fn bytes(&self) -> Seq<u8> {
        self.s@
    }

    /// The cursor.
    pub closed spec fn position(&self) -> int {
        self.i as int
    }

    /// A buffer over `s` with the cursor on its first byte.
    pub fn new(s: Vec<u8>) -> (b: Self)
        ensures
            b.bytes() == s@,
            b.position() == 0,
    {
        sliceBuffer { s, i: 0 }
    }

    /// The cursor, which is never negative and fits in 31 bits.
    pub fn pos(&self) -> (p: i32)
        ensures
            p == self.position(),
            0 <= p,
    {
        proof {
            use_type_invariant(self);
        }
        self.i
    }

    /// The bytes held.
    pub fn raw(&self) -> (r: &Vec<u8>)
        ensures
            r@ == self.bytes(),
    {
        &self.s
    }

    /// Puts the cursor on position `to`, which may lie beyond the last byte.
    /// Fails, and leaves the cursor where it is, when `to` does not fit in 31
    /// bits.
    pub fn place(&mut self, to: usize) -> (r: Result<(), RdbError>)
        ensures
            final(self).bytes() == old(self).bytes(),
            0 <= old(self).position(),
            to <= MAX_POSITION ==> r is Ok && final(self).position() == to,
            to > MAX_POSITION ==> r == Err::<(), RdbError>(RdbError::PositionOutOfRange)
                && final(self).position() == old(self).position(),
    {
        proof {
            use_type_invariant(&*self);
        }
        if to > MAX_POSITION as usize {
            return Err(RdbError::PositionOutOfRange);
        }
        self.i = to as i32;
        Ok(())
    }

    /// The number of bytes held.
    pub fn len(&self) -> (n: usize)
        ensures
            n == self.bytes().len(),
    {
        self.s.len()
    }

    /// Takes the next `n` bytes and moves the cursor behind them. Fails, and
    /// leaves the cursor where it is, when `n` is negative or fewer than `n`
    /// bytes are left.
    pub fn Slice(&mut self, n: i32) -> (r: Result<Vec<u8>, RdbError>)
        ensures
            final(self).bytes() == old(self).bytes(),
            0 <= old(self).position(),
            match spec_slice(old(self).bytes(), old(self).position(), n as int) {
                Ok((v, next)) => r matches Ok(got) && got@ == v && final(self).position() == next,
                Err(e) => r == Err::<Vec<u8>, RdbError>(e) && final(self).position() == old(self).position(),
            },
    {
        proof {
            use_type_invariant(&*self);
        }
        if n < 0 {
            return Err(RdbError::Io);
        }
        let start: usize = self.i as usize;
        let count: usize = n as usize;
        if start > self.s.len() || count > self.s.len() - start {
            return Err(RdbError::Io);
        }
        if count > (MAX_POSITION - self.i) as usize {
            return Err(RdbError::PositionOutOfRange);
        }
        let end: usize = start + count;
        let mut rsl: Vec<u8> = Vec::new();
        let mut index: usize = start;
        while index < end
            invariant
                start <= index <= end <= self.s.len(),
                rsl@ == self.s@.subrange(start as int, index as int),
            decreases end - index,
        {
            rsl.push(self.s[index]);
            index = index + 1;
        }
        self.i = self.i + n;
        Ok(rsl)
    }

    /// Reads the byte under the cursor and moves the cursor past it.
    pub fn ReadByte(&mut self) -> (r: Result<u8, RdbError>)
        ensures
            final(self).bytes() == old(self).bytes(),
            0 <= old(self).position(),
            match spec_byte(old(self).bytes(), old(self).position()) {
                Ok((b, next)) => r == Ok::<u8, RdbError>(b) && final(self).position() == next,
                Err(e) => r == Err::<u8, RdbError>(e) && final(self).position() == old(self).position(),
            },
    {
        proof {
            use_type_invariant(&*self);
        }
        let at: usize = self.i as usize;
        if at >= self.s.len() {
            return Err(RdbError::Io);
        }
        if self.i == MAX_POSITION {
            return Err(RdbError::PositionOutOfRange);
        }
        let rsl: u8 = self.s[at];
        self.i = self.i + 1;
        Ok(rsl)
    }

    /// Fills `p` with the bytes that follow the cursor, without moving the
    /// cursor, and returns how many bytes were copied, which is the length of
    /// `p`. Fails, and leaves `p` as it is, when `p` is empty or the buffer
    /// holds fewer bytes behind the cursor than `p` has room for.
    pub fn Read(&mut self, p: &mut Vec<u8>) -> (r: Result<usize, RdbError>)
        ensures
            final(self).bytes() == old(self).bytes(),
            final(self).position() == old(self).position(),
            0 <= old(self).position(),
            old(p)@.len() == 0 ==> r == Err::<usize, RdbError>(RdbError::NilRead),
            old(p)@.len() > 0 && old(self).position() + old(p)@.len() > old(self).bytes().len()
                ==> r == Err::<usize, RdbError>(RdbError::Io),
            r is Err ==> final(p)@ == old(p)@,
            old(p)@.len() > 0 && old(self).position() + old(p)@.len() <= old(self).bytes().len()
                ==> r == Ok::<usize, RdbError>(old(p)@.len() as usize) && final(p)@ == old(self).bytes().subrange(
                old(self).position(),
                old(self).position() + old(p)@.len(),
            ),
    {
        proof {
            use_type_invariant(&*self);
        }
        let want: usize = p.len();
        if want == 0 {
            return Err(RdbError::NilRead);
        }
        let start: usize = self.i as usize;
        if start >= self.s.len() || want > self.s.len() - start {
            return Err(RdbError::Io);
        }
        let mut index: usize = 0;
        while index < want
            invariant
                index <= want,
                p@.len() == want,
                start + want <= self.s.len(),
                p@.subrange(0, index as int) == self.s@.subrange(
                    start as int,
                    start + index as int,
                ),
            decreases want - index,
        {
            p.set(index, self.s[index + start]);
            index = index + 1;
            assert(p@.subrange(0, index as int) =~= self.s@.subrange(
                start as int,
                start + index as int,
            ));
        }
        assert(p@ =~= p@.subrange(0, want as int));
        Ok(index)
    }

    /// Moves the cursor to `offset` bytes from the start (`whence` 0), from
    /// the cursor (1) or from the end (2), and returns the new position. The
    /// cursor may be placed beyond the last byte, but not before the first or
    /// beyond 31 bits. A failed seek leaves the cursor where it is.
    pub fn Seek(&mut self, offset: i64, whence: i32) -> (r: Result<i64, RdbError>)
        ensures
            final(self).bytes() == old(self).bytes(),
            0 <= old(self).position(),
            match spec_seek(
                old(self).bytes().len() as int,
                old(self).position(),
                offset as int,
                whence as int,
            ) {
                Ok(abs) => r == Ok::<i64, RdbError>(abs as i64) && final(self).position() == abs,
                Err(e) => r == Err::<i64, RdbError>(e) && final(self).position() == old(self).position(),
            },
    {
        proof {
            use_type_invariant(&*self);
        }
        let base: i128 = if whence == 0 {
            0
        } else if whence == 1 {
            self.i as i128
        } else if whence == 2 {
            self.s.len() as i128
        } else {
            return Err(RdbError::InvalidWhence);
        };
        let abs: i128 = base + offset as i128;
        if abs < 0 {
            return Err(RdbError::NegativePosition);
        }
        if abs > MAX_POSITION as i128 {
            return Err(RdbError::PositionOutOfRange);
        }
        self.i = abs as i32;
        Ok(abs as i64)
    }
}

} // verus!
