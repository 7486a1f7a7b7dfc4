//! The reader of a snapshot: the bytes of the source, how far they have been
//! read, the checksum of what has been read, and the state that carries an
//! oversized hash from one entry to the next.
use crate::checksum::{crc64_fold, crc64_of, crc64_range, lemma_crc64_fold_concat};
use crate::errors::RdbError;
use crate::packed::{
    count_zipmap_items_from,
    spec_count_zipmap_items,
    spec_ziplist_entry,
    spec_ziplist_length,
    spec_zipmap_item,
    spec_zipmap_item_length,
    ziplist_entry_at,
    ziplist_length_of,
    zipmap_item_at,
    zipmap_item_length_at,
};
use crate::slice_buffer::{sliceBuffer, MAX_POSITION};
use crate::wire::{
    double_at,
    encoded_length_at,
    float_at,
    length_at,
    lemma_wire_advances,
    spec_double,
    spec_encoded_length,
    spec_float,
    spec_length,
    spec_string,
    spec_take,
    spec_u16,
    spec_u32,
    spec_u32_be,
    spec_u64,
    spec_u64_be,
    spec_u8,
    string_at,
    take,
    u16_at,
    u32_at,
    u32_be_at,
    u64_at,
    u64_be_at,
    u8_at,
    Parsed,
};
use vstd::prelude::*;

verus! {

/// The reader of a snapshot.
pub struct rdbReader {
    /// The bytes of the source.
    pub raw: Vec<u8>,
    /// How many bytes of `raw` have been read.
    pub nread: usize,
    /// The bytes that were read and then given up to make room. The
    /// checksum covers them too.
    pub before: Ghost<Seq<u8>>,
    /// The checksum of the bytes read.
    pub crc64: u64,
    /// Whether the bytes that are read are also collected in `buf`.
    pub is_cache_buf: bool,
    /// The bytes collected since collecting began.
    pub buf: Vec<u8>,
    /// How many members of a hash are still to be read in later entries.
    pub remainMember: u32,
    /// How many members the last value read has brought.
    pub lastReadCount: u32,
    /// How many members the hash being read has in all.
    pub totMemberCount: u32,
}

/// A reader as a mathematical value.
#[verifier::ext_equal]
pub struct ReaderView {
    pub before: Seq<u8>,
    pub raw: Seq<u8>,
    pub nread: int,
    pub crc64: u64,
    pub is_cache_buf: bool,
    pub buf: Seq<u8>,
    pub remainMember: u32,
    pub lastReadCount: u32,
    pub totMemberCount: u32,
}

impl ReaderView {
    /// The reader after the bytes up to position `next` have been read: the
    /// checksum covers them, and they are collected where collecting is on.
    pub open spec fn advance(self, next: int) -> ReaderView {
        ReaderView {
            before: self.before,
            raw: self.raw,
            nread: next,
            crc64: crc64_of(self.before + self.raw.subrange(0, next)),
            is_cache_buf: self.is_cache_buf,
            buf: if self.is_cache_buf {
                self.buf + self.raw.subrange(self.nread, next)
            } else {
                self.buf
            },
            remainMember: self.remainMember,
            lastReadCount: self.lastReadCount,
            totMemberCount: self.totMemberCount,
        }
    }

    /// Whether the position lies within the bytes and the checksum is that of
    /// all bytes before it, those given up included.
    pub open spec fn wf(self) -> bool {
        &&& 0 <= self.nread <= self.raw.len()
        &&& self.crc64 == crc64_of(self.before + self.raw.subrange(0, self.nread))
    }

    /// The reader after the bytes `more` have arrived behind those that it
    /// holds.
    pub open spec fn fed(self, more: Seq<u8>) -> ReaderView {
        ReaderView {
            before: self.before,
            raw: self.raw + more,
            nread: self.nread,
            crc64: self.crc64,
            is_cache_buf: self.is_cache_buf,
            buf: self.buf,
            remainMember: self.remainMember,
            lastReadCount: self.lastReadCount,
            totMemberCount: self.totMemberCount,
        }
    }

    /// The reader after it has given up the bytes that it has read.
    pub open spec fn compacted(self) -> ReaderView {
        ReaderView {
            before: self.before + self.raw.subrange(0, self.nread),
            raw: self.raw.subrange(self.nread, self.raw.len() as int),
            nread: 0,
            crc64: self.crc64,
            is_cache_buf: self.is_cache_buf,
            buf: self.buf,
            remainMember: self.remainMember,
            lastReadCount: self.lastReadCount,
            totMemberCount: self.totMemberCount,
        }
    }
}

impl View for rdbReader {
    type V = ReaderView;

    open spec fn view(&self) -> ReaderView {
        ReaderView {
            before: self.before@,
            raw: self.raw@,
            nread: self.nread as int,
            crc64: self.crc64,
            is_cache_buf: self.is_cache_buf,
            buf: self.buf@,
            remainMember: self.remainMember,
            lastReadCount: self.lastReadCount,
            totMemberCount: self.totMemberCount,
        }
    }
}

/// What a read of a scalar value does: where the value can be read, it is
/// returned and the reader advances behind it; where it cannot, the error is
/// returned and the reader stays as it was.
pub open spec fn read_value<T>(
    pre: ReaderView,
    post: ReaderView,
    r: Result<T, RdbError>,
    want: Parsed<T>,
) -> bool {
    match want {
        Ok((v, next)) => r == Ok::<T, RdbError>(v) && post == pre.advance(next),
        Err(e) => r == Err::<T, RdbError>(e) && post == pre,
    }
}

/// What a read of bytes does: as `read_value`, for a result that holds bytes.
pub open spec fn read_bytes(
    pre: ReaderView,
    post: ReaderView,
    r: Result<Vec<u8>, RdbError>,
    want: Parsed<Seq<u8>>,
) -> bool {
    match want {
        Ok((v, next)) => r matches Ok(got) && got@ == v && post == pre.advance(next),
        Err(e) => r == Err::<Vec<u8>, RdbError>(e) && post == pre,
    }
}

/// What a read of bytes from a buffer does: where the bytes can be read and
/// the position behind them fits the cursor, they are returned and the cursor
/// moves behind them; else the error is returned and the cursor stays.
pub open spec fn buffer_bytes(
    pre: sliceBuffer,
    post: sliceBuffer,
    r: Result<Vec<u8>, RdbError>,
    want: Parsed<Seq<u8>>,
) -> bool {
    &&& post.bytes() == pre.bytes()
    &&& match want {
        Ok((v, next)) => if next > MAX_POSITION {
            r == Err::<Vec<u8>, RdbError>(RdbError::PositionOutOfRange) && post.position()
                == pre.position()
        } else {
            r matches Ok(got) && got@ == v && post.position() == next
        },
        Err(e) => r == Err::<Vec<u8>, RdbError>(e) && post.position() == pre.position(),
    }
}

/// What a read of a scalar value from a buffer does: as `buffer_bytes`.
pub open spec fn buffer_value<T>(
    pre: sliceBuffer,
    post: sliceBuffer,
    r: Result<T, RdbError>,
    want: Parsed<T>,
) -> bool {
    &&& post.bytes() == pre.bytes()
    &&& match want {
        Ok((v, next)) => if next > MAX_POSITION {
            r == Err::<T, RdbError>(RdbError::PositionOutOfRange) && post.position()
                == pre.position()
        } else {
            r == Ok::<T, RdbError>(v) && post.position() == next
        },
        Err(e) => r == Err::<T, RdbError>(e) && post.position() == pre.position(),
    }
}

impl rdbReader {
    /// Whether the position lies within the bytes and the checksum is that of
    /// the bytes read.
    pub open spec fn wf(&self) -> bool {
        self@.wf()
    }

    /// A reader at the start of `raw`.
    pub fn new(raw: Vec<u8>) -> (r: rdbReader)
        ensures
            r.wf(),
            r@.before == Seq::<u8>::empty(),
            r@.raw == raw@,
            r@.nread == 0,
            !r@.is_cache_buf,
            r@.buf == Seq::<u8>::empty(),
            r@.remainMember == 0,
            r@.lastReadCount == 0,
            r@.totMemberCount == 0,
    {
        assert(Seq::<u8>::empty() + raw@.subrange(0, 0) =~= Seq::<u8>::empty());
        rdbReader {
            raw,
            nread: 0,
            before: Ghost(Seq::empty()),
            crc64: 0,
            is_cache_buf: false,
            buf: Vec::new(),
            remainMember: 0,
            lastReadCount: 0,
            totMemberCount: 0,
        }
    }

    /// Moves the reader to position `next`: adds the bytes passed to the
    /// checksum and, where collecting is on, to the collected bytes.
    pub fn commit(&mut self, next: usize)
        requires
            old(self).wf(),
            old(self).nread <= next <= old(self).raw.len(),
        ensures
            final(self).wf(),
            final(self)@ == old(self)@.advance(next as int),
    {
        proof {
            let a = self.before@ + self.raw@.subrange(0, self.nread as int);
            let b = self.raw@.subrange(self.nread as int, next as int);
            lemma_crc64_fold_concat(0, a, b);
            assert(a + b =~= self.before@ + self.raw@.subrange(0, next as int));
        }
        self.crc64 = crc64_range(self.crc64, &self.raw, self.nread, next);
        if self.is_cache_buf {
            let mut k: usize = self.nread;
            let ghost before = self.buf@;
            while k < next
                invariant
                    self.nread <= k <= next <= self.raw.len(),
                    self.buf@ == before + self.raw@.subrange(self.nread as int, k as int),
                    self.raw == old(self).raw,
                    self.nread == old(self).nread,
                    self.before == old(self).before,
                    self.crc64 == crc64_of(self.before@ + self.raw@.subrange(0, next as int)),
                    self.is_cache_buf == old(self).is_cache_buf,
                    self.remainMember == old(self).remainMember,
                    self.lastReadCount == old(self).lastReadCount,
                    self.totMemberCount == old(self).totMemberCount,
                decreases next - k,
            {
                self.buf.push(self.raw[k]);
                k = k + 1;
                assert(self.buf@ =~= before + self.raw@.subrange(self.nread as int, k as int));
            }
        }
        self.nread = next;
        assert(self@ =~= old(self)@.advance(next as int));
    }

    /// Takes in the bytes `more` that have arrived from the source.
    pub fn feed(&mut self, more: &Vec<u8>)
        requires
            old(self).wf(),
        ensures
            final(self).wf(),
            final(self)@ == old(self)@.fed(more@),
    {
        let mut k: usize = 0;
        assert(self.raw@ + more@.subrange(0, 0) =~= self.raw@);
        while k < more.len()
            invariant
                k <= more.len(),
                self.raw@ == old(self).raw@ + more@.subrange(0, k as int),
                self.nread == old(self).nread,
                self.before == old(self).before,
                self.crc64 == old(self).crc64,
                self.is_cache_buf == old(self).is_cache_buf,
                self.buf == old(self).buf,
                self.remainMember == old(self).remainMember,
                self.lastReadCount == old(self).lastReadCount,
                self.totMemberCount == old(self).totMemberCount,
            decreases more.len() - k,
        {
            self.raw.push(more[k]);
            k = k + 1;
            assert(self.raw@ =~= old(self).raw@ + more@.subrange(0, k as int));
        }
        assert(more@.subrange(0, k as int) =~= more@);
        assert(self.raw@.subrange(0, self.nread as int) =~= old(self).raw@.subrange(
            0,
            self.nread as int,
        ));
    }

    /// Gives up the bytes that have been read, to make room. What is read
    /// from then on is read as before, and the checksum still covers every
    /// byte.
    pub fn compact(&mut self)
        requires
            old(self).wf(),
        ensures
            final(self).wf(),
            final(self)@ == old(self)@.compacted(),
    {
        let rest: Vec<u8> = self.raw.split_off(self.nread);
        proof {
            assert(self.before@ + old(self).raw@.subrange(0, self.nread as int) + rest@.subrange(
                0,
                0,
            ) =~= self.before@ + old(self).raw@.subrange(0, self.nread as int));
        }
        self.before = Ghost(self.before@ + old(self).raw@.subrange(0, self.nread as int));
        self.raw = rest;
        self.nread = 0;
    }

    /// Reads one byte.
    pub fn ReadByte(&mut self) -> (r: Result<u8, RdbError>)
        requires
            old(self).wf(),
        ensures
            final(self).wf(),
            read_value(old(self)@, final(self)@, r, spec_u8(old(self)@.raw, old(self)@.nread)),
    {
        proof {
            lemma_wire_advances(self.raw@, self.nread as int);
        }
        match u8_at(&self.raw, self.nread) {
            Ok((v, next)) => {
                self.commit(next);
                Ok(v)
            },
            Err(e) => Err(e),
        }
    }

    /// Reads one byte as a number.
    pub fn readUint8(&mut self) -> (r: Result<u8, RdbError>)
        requires
            old(self).wf(),
        ensures
            final(self).wf(),
            read_value(old(self)@, final(self)@, r, spec_u8(old(self)@.raw, old(self)@.nread)),
    {
        self.ReadByte()
    }

    /// Reads a 16-bit number, least significant byte first.
    pub fn readUint16(&mut self) -> (r: Result<u16, RdbError>)
        requires
            old(self).wf(),
        ensures
            final(self).wf(),
            read_value(old(self)@, final(self)@, r, spec_u16(old(self)@.raw, old(self)@.nread)),
    {
        match u16_at(&self.raw, self.nread) {
            Ok((v, next)) => {
                self.commit(next);
                Ok(v)
            },
            Err(e) => Err(e),
        }
    }

    /// Reads a 32-bit number, least significant byte first.
    pub fn readUint32(&mut self) -> (r: Result<u32, RdbError>)
        requires
            old(self).wf(),
        ensures
            final(self).wf(),
            read_value(old(self)@, final(self)@, r, spec_u32(old(self)@.raw, old(self)@.nread)),
    {
        match u32_at(&self.raw, self.nread) {
            Ok((v, next)) => {
                self.commit(next);
                Ok(v)
            },
            Err(e) => Err(e),
        }
    }

    /// Reads a 64-bit number, least significant byte first.
    pub fn readUint64(&mut self) -> (r: Result<u64, RdbError>)
        requires
            old(self).wf(),
        ensures
            final(self).wf(),
            read_value(old(self)@, final(self)@, r, spec_u64(old(self)@.raw, old(self)@.nread)),
    {
        match u64_at(&self.raw, self.nread) {
            Ok((v, next)) => {
                self.commit(next);
                Ok(v)
            },
            Err(e) => Err(e),
        }
    }

    /// Reads a 32-bit number, most significant byte first.
    pub fn readUint32BigEndian(&mut self) -> (r: Result<u32, RdbError>)
        requires
            old(self).wf(),
        ensures
            final(self).wf(),
            read_value(
                old(self)@,
                final(self)@,
                r,
                spec_u32_be(old(self)@.raw, old(self)@.nread),
            ),
    {
        match u32_be_at(&self.raw, self.nread) {
            Ok((v, next)) => {
                self.commit(next);
                Ok(v)
            },
            Err(e) => Err(e),
        }
    }

    /// Reads a 64-bit number, most significant byte first.
    pub fn readUint64BigEndian(&mut self) -> (r: Result<u64, RdbError>)
        requires
            old(self).wf(),
        ensures
            final(self).wf(),
            read_value(
                old(self)@,
                final(self)@,
                r,
                spec_u64_be(old(self)@.raw, old(self)@.nread),
            ),
    {
        match u64_be_at(&self.raw, self.nread) {
            Ok((v, next)) => {
                self.commit(next);
                Ok(v)
            },
            Err(e) => Err(e),
        }
    }

    /// Reads the next `n` bytes.
    pub fn ReadBytes(&mut self, n: usize) -> (r: Result<Vec<u8>, RdbError>)
        requires
            old(self).wf(),
        ensures
            final(self).wf(),
            read_bytes(
                old(self)@,
                final(self)@,
                r,
                spec_take(old(self)@.raw, old(self)@.nread, n as int),
            ),
    {
        match take(&self.raw, self.nread, n) {
            Ok((v, next)) => {
                self.commit(next);
                Ok(v)
            },
            Err(e) => Err(e),
        }
    }

    /// Reads a length, and whether it names a special string encoding.
    pub fn readEncodedLength(&mut self) -> (r: Result<(u32, bool), RdbError>)
        requires
            old(self).wf(),
        ensures
            final(self).wf(),
            read_value(
                old(self)@,
                final(self)@,
                r,
                spec_encoded_length(old(self)@.raw, old(self)@.nread),
            ),
    {
        proof {
            lemma_wire_advances(self.raw@, self.nread as int);
        }
        match encoded_length_at(&self.raw, self.nread) {
            Ok((v, next)) => {
                self.commit(next);
                Ok(v)
            },
            Err(e) => Err(e),
        }
    }

    /// Reads a plain length.
    pub fn ReadLength(&mut self) -> (r: Result<u32, RdbError>)
        requires
            old(self).wf(),
        ensures
            final(self).wf(),
            read_value(
                old(self)@,
                final(self)@,
                r,
                spec_length(old(self)@.raw, old(self)@.nread),
            ),
    {
        proof {
            lemma_wire_advances(self.raw@, self.nread as int);
        }
        match length_at(&self.raw, self.nread) {
            Ok((v, next)) => {
                self.commit(next);
                Ok(v)
            },
            Err(e) => Err(e),
        }
    }

    /// Reads a string.
    pub fn ReadString(&mut self) -> (r: Result<Vec<u8>, RdbError>)
        requires
            old(self).wf(),
        ensures
            final(self).wf(),
            read_bytes(
                old(self)@,
                final(self)@,
                r,
                spec_string(old(self)@.raw, old(self)@.nread),
            ),
    {
        proof {
            lemma_wire_advances(self.raw@, self.nread as int);
        }
        match string_at(&self.raw, self.nread) {
            Ok((v, next)) => {
                self.commit(next);
                Ok(v)
            },
            Err(e) => Err(e),
        }
    }

    /// Reads a number in the legacy encoding of scores and returns its text.
    pub fn ReadFloat(&mut self) -> (r: Result<Vec<u8>, RdbError>)
        requires
            old(self).wf(),
        ensures
            final(self).wf(),
            read_bytes(old(self)@, final(self)@, r, spec_float(old(self)@.raw, old(self)@.nread)),
    {
        proof {
            lemma_wire_advances(self.raw@, self.nread as int);
        }
        match float_at(&self.raw, self.nread) {
            Ok((v, next)) => {
                self.commit(next);
                Ok(v)
            },
            Err(e) => Err(e),
        }
    }

    /// Reads the eight bytes of a double and returns them as 64 bits.
    pub fn ReadDouble(&mut self) -> (r: Result<u64, RdbError>)
        requires
            old(self).wf(),
        ensures
            final(self).wf(),
            read_value(
                old(self)@,
                final(self)@,
                r,
                spec_double(old(self)@.raw, old(self)@.nread),
            ),
    {
        match double_at(&self.raw, self.nread) {
            Ok((v, next)) => {
                self.commit(next);
                Ok(v)
            },
            Err(e) => Err(e),
        }
    }

    /// Reads the zipmap item under the cursor of `buf` and passes over the
    /// unused bytes behind it.
    pub fn ReadZipmapItem(&mut self, buf: &mut sliceBuffer, readFree: bool) -> (r: Result<
        Vec<u8>,
        RdbError,
    >)
        ensures
            *final(self) == *old(self),
            buffer_bytes(
                *old(buf),
                *final(buf),
                r,
                spec_zipmap_item(old(buf).bytes(), old(buf).position(), readFree),
            ),
    {
        let at: i32 = buf.pos();
        match zipmap_item_at(buf.raw(), at as usize, readFree) {
            Ok((v, next)) => match buf.place(next) {
                Ok(()) => Ok(v),
                Err(e) => Err(e),
            },
            Err(e) => Err(e),
        }
    }

    /// Reads the length of the zipmap item under the cursor of `buf`, and the
    /// number of unused bytes behind the item.
    pub fn readZipmapItemLength(&mut self, buf: &mut sliceBuffer, readFree: bool) -> (r: Result<
        (i32, i32),
        RdbError,
    >)
        ensures
            *final(self) == *old(self),
            buffer_value(
                *old(buf),
                *final(buf),
                r,
                spec_zipmap_item_length(old(buf).bytes(), old(buf).position(), readFree),
            ),
    {
        let at: i32 = buf.pos();
        match zipmap_item_length_at(buf.raw(), at as usize, readFree) {
            Ok((v, next)) => match buf.place(next) {
                Ok(()) => Ok(v),
                Err(e) => Err(e),
            },
            Err(e) => Err(e),
        }
    }

    /// Counts the zipmap items from the cursor of `buf` to the end of the
    /// zipmap, and puts the cursor on the first byte of `buf`. A failed count
    /// leaves the cursor where it is.
    pub fn CountZipmapItems(&mut self, buf: &mut sliceBuffer) -> (r: Result<i32, RdbError>)
        ensures
            *final(self) == *old(self),
            final(buf).bytes() == old(buf).bytes(),
            match spec_count_zipmap_items(old(buf).bytes(), old(buf).position(), 0) {
                Ok(n) => r == Ok::<i32, RdbError>(n as i32) && 0 <= n <= i32::MAX
                    && final(buf).position() == 0,
                Err(e) => r == Err::<i32, RdbError>(e)
                    && final(buf).position() == old(buf).position(),
            },
    {
        let at: i32 = buf.pos();
        match count_zipmap_items_from(buf.raw(), at as usize) {
            Ok(n) => match buf.place(0) {
                Ok(()) => Ok(n),
                Err(e) => Err(e),
            },
            Err(e) => Err(e),
        }
    }

    /// Reads the ziplist entry under the cursor of `buf`.
    pub fn ReadZiplistEntry(&mut self, buf: &mut sliceBuffer) -> (r: Result<Vec<u8>, RdbError>)
        ensures
            *final(self) == *old(self),
            buffer_bytes(
                *old(buf),
                *final(buf),
                r,
                spec_ziplist_entry(old(buf).bytes(), old(buf).position()),
            ),
    {
        let at: i32 = buf.pos();
        match ziplist_entry_at(buf.raw(), at as usize) {
            Ok((v, next)) => match buf.place(next) {
                Ok(()) => Ok(v),
                Err(e) => Err(e),
            },
            Err(e) => Err(e),
        }
    }

    /// Reads the number of entries that the ziplist in `buf` announces, and
    /// puts the cursor on its first entry.
    pub fn ReadZiplistLength(&mut self, buf: &mut sliceBuffer) -> (r: Result<i64, RdbError>)
        ensures
            *final(self) == *old(self),
            buffer_value(*old(buf), *final(buf), r, spec_ziplist_length(old(buf).bytes())),
    {
        let at: i32 = buf.pos();
        match ziplist_length_of(buf.raw()) {
            Ok((v, next)) => match buf.place(next) {
                Ok(()) => Ok(v),
                Err(e) => Err(e),
            },
            Err(e) => Err(e),
        }
    }
}

} // verus!
