//! The bookkeeping of a session: the phases that it goes through, the count
//! of the bytes received, and the part that each read from the source plays.
use crate::errors::RdbError;
use vstd::prelude::*;

verus! {

/// The phases of a session. While `Reading`, the snapshot is decoded and
/// replayed. `ReadDone` says that the snapshot has been decoded to its end
/// and its checksum verified. `SendDone` says that every command of the
/// snapshot has reached the destination; only then is the stream behind the
/// snapshot consumed.
#[derive(Clone, Copy, Debug, PartialEq, Eq, Structural)]
pub enum Phase {
    Reading,
    ReadDone,
    SendDone,
}

/// A count of bytes that only grows. It stops at the largest number that 64
/// bits hold.
pub struct OffsetCounter {
    value: u64,
}

/// `value` and `n` added, as far as 64 bits hold the sum.
pub open spec fn saturating_sum(value: u64, n: nat) -> u64 {
    if value + n > u64::MAX {
        u64::MAX
    } else {
        (value + n) as u64
    }
}

/// The sum of the numbers `chunks`.
pub open spec fn total(chunks: Seq<usize>) -> nat
    decreases chunks.len(),
{
    if chunks.len() == 0 {
        0
    } else {
        total(chunks.drop_last()) + chunks.last() as nat
    }
}

/// The count after reads of the sizes `chunks`, one after the other, were
/// recorded on the count `value`.
pub open spec fn recorded(value: u64, chunks: Seq<usize>) -> u64
    decreases chunks.len(),
{
    if chunks.len() == 0 {
        value
    } else {
        saturating_sum(recorded(value, chunks.drop_last()), chunks.last() as nat)
    }
}

/// However the bytes of a stream are cut into reads, the count after the
/// reads is the count before them plus the number of bytes, and it is never
/// below the count after the first of the reads.
pub proof fn lemma_recorded_total(value: u64, chunks: Seq<usize>, k: int)
    requires
        0 <= k <= chunks.len(),
    ensures
        recorded(value, chunks) == saturating_sum(value, total(chunks)),
        recorded(value, chunks.subrange(0, k)) <= recorded(value, chunks),
        value <= recorded(value, chunks),
    decreases chunks.len(),
{
    if chunks.len() == 0 {
        assert(chunks.subrange(0, k) =~= chunks);
    } else {
        let front = chunks.drop_last();
        if k == chunks.len() {
            assert(chunks.subrange(0, k) =~= chunks);
            lemma_recorded_total(value, front, 0);
        } else {
            lemma_recorded_total(value, front, k);
            assert(front.subrange(0, k) =~= chunks.subrange(0, k));
        }
    }
}

/// Two ways of cutting the same number of bytes into reads give the same
/// count.
pub proof fn lemma_recorded_any_chunking(value: u64, a: Seq<usize>, b: Seq<usize>)
    requires
        total(a) == total(b),
    ensures
        recorded(value, a) == recorded(value, b),
{
    lemma_recorded_total(value, a, 0);
    lemma_recorded_total(value, b, 0);
}

impl OffsetCounter {
    /// The count.
    pub closed spec fn view(&self) -> u64 {
        self.value
    }

    /// A counter that starts at `start`.
    pub fn new(start: u64) -> (c: OffsetCounter)
        ensures
            c.view() == start,
    {
        OffsetCounter { value: start }
    }

    /// Records a read of `n` bytes.
    pub fn record(&mut self, n: usize)
        ensures
            final(self).view() == saturating_sum(old(self).view(), n as nat),
            final(self).view() >= old(self).view(),
    {
        let room: u64 = 0xffff_ffff_ffff_ffff - self.value;
        if n as u64 > room {
            self.value = 0xffff_ffff_ffff_ffff;
        } else {
            self.value = self.value + n as u64;
        }
    }

    /// The count.
    pub fn load(&self) -> (v: u64)
        ensures
            v == self.view(),
    {
        self.value
    }
}

/// What the bytes of one read are.
#[derive(Clone, Copy, Debug, PartialEq, Eq, Structural)]
pub enum Forward {
    /// The first `snapshot` bytes belong to the snapshot and the `tail`
    /// bytes behind them to the stream that follows it.
    Bytes { snapshot: usize, tail: usize },
    /// Nothing may be read now: the snapshot has been received, and its
    /// commands have not all reached the destination.
    Hold,
}

/// What to do when the connection to the source fails.
#[derive(Clone, Copy, Debug, PartialEq, Eq, Structural)]
pub enum Recovery {
    /// The session is lost: a snapshot cannot be resumed.
    Fatal,
    /// Connect again and ask the source to continue behind `offset` bytes.
    Reconnect { offset: u64 },
}

/// The part of a session that receives bytes from the source.
pub struct Adapter {
    rdb_size: u64,
    rdb_read_count: u64,
    offset: OffsetCounter,
}

/// An `Adapter` as a mathematical value.
pub struct AdapterView {
    /// The announced size of the snapshot.
    pub rdb_size: u64,
    /// How many bytes of the snapshot have been received.
    pub rdb_read_count: u64,
    /// The offset in the stream: the offset that the handshake gave, plus
    /// the bytes received behind the snapshot.
    pub offset: u64,
}

impl AdapterView {
    /// Whether no more than the snapshot was counted as snapshot.
    pub open spec fn wf(self) -> bool {
        self.rdb_read_count <= self.rdb_size
    }

    /// Whether a read may take place in phase `phase`: while the snapshot is
    /// being received, and again once its commands have reached the
    /// destination.
    pub open spec fn may_read(self, phase: Phase) -> bool {
        self.rdb_read_count < self.rdb_size || phase == Phase::SendDone
    }

    /// How many of `n` bytes read belong to the snapshot.
    pub open spec fn snapshot_part(self, n: usize) -> usize {
        if n <= self.rdb_size - self.rdb_read_count {
            n
        } else {
            (self.rdb_size - self.rdb_read_count) as usize
        }
    }

    /// The adapter after a read of `n` bytes that took place.
    pub open spec fn after_read(self, n: usize) -> AdapterView {
        AdapterView {
            rdb_size: self.rdb_size,
            rdb_read_count: (self.rdb_read_count + self.snapshot_part(n)) as u64,
            offset: saturating_sum(self.offset, (n - self.snapshot_part(n)) as nat),
        }
    }

    /// The adapter after reads of the sizes `chunks` that took place.
    pub open spec fn after_reads(self, chunks: Seq<usize>) -> AdapterView
        decreases chunks.len(),
    {
        if chunks.len() == 0 {
            self
        } else {
            self.after_reads(chunks.drop_last()).after_read(chunks.last())
        }
    }
}

/// However the bytes are cut into reads, every byte is counted once: as a
/// byte of the snapshot until the snapshot is complete, as a byte of the
/// stream from then on. The offset never decreases.
pub proof fn lemma_adapter_counts(v: AdapterView, chunks: Seq<usize>)
    requires
        v.wf(),
    ensures
        v.after_reads(chunks).wf(),
        v.after_reads(chunks).rdb_size == v.rdb_size,
        v.after_reads(chunks).offset >= v.offset,
        v.after_reads(chunks).rdb_read_count >= v.rdb_read_count,
        v.after_reads(chunks).rdb_read_count == (if v.rdb_read_count + total(chunks)
            <= v.rdb_size {
            v.rdb_read_count + total(chunks)
        } else {
            v.rdb_size as int
        }),
        v.after_reads(chunks).offset == saturating_sum(
            v.offset,
            (if v.rdb_read_count + total(chunks) <= v.rdb_size {
                0
            } else {
                v.rdb_read_count + total(chunks) - v.rdb_size
            }) as nat,
        ),
    decreases chunks.len(),
{
    if chunks.len() > 0 {
        lemma_adapter_counts(v, chunks.drop_last());
    }
}

impl View for Adapter {
    type V = AdapterView;

    closed spec fn view(&self) -> AdapterView {
        AdapterView {
            rdb_size: self.rdb_size,
            rdb_read_count: self.rdb_read_count,
            offset: self.offset.view(),
        }
    }
}

impl Adapter {
    /// An adapter for a session whose handshake gave the offset `offset` and
    /// announced a snapshot of `rdb_size` bytes.
    pub fn new(offset: u64, rdb_size: u64) -> (a: Adapter)
        ensures
            a@.wf(),
            a@ == (AdapterView { rdb_size, rdb_read_count: 0, offset }),
    {
        Adapter { rdb_size, rdb_read_count: 0, offset: OffsetCounter::new(offset) }
    }

    /// The offset in the stream, for the acknowledgement to the source.
    pub fn offset(&self) -> (v: u64)
        ensures
            v == self@.offset,
    {
        self.offset.load()
    }

    /// How many bytes of the snapshot have been received.
    pub fn rdb_read_count(&self) -> (v: u64)
        ensures
            v == self@.rdb_read_count,
    {
        self.rdb_read_count
    }

    /// Whether all of the snapshot has been received.
    pub fn snapshot_received(&self) -> (b: bool)
        ensures
            b == (self@.rdb_read_count >= self@.rdb_size),
    {
        self.rdb_read_count >= self.rdb_size
    }

    /// Whether the source may be read in phase `phase`.
    pub fn may_read(&self, phase: Phase) -> (b: bool)
        ensures
            b == self@.may_read(phase),
    {
        self.rdb_read_count < self.rdb_size || phase == Phase::SendDone
    }

    /// Takes note of `n` bytes read from the source in phase `phase`, and
    /// says which of them belong to the snapshot and which to the stream
    /// behind it. Bytes behind the snapshot count into the offset. Where
    /// nothing may be read, nothing is noted.
    pub fn on_read(&mut self, n: usize, phase: Phase) -> (f: Forward)
        requires
            old(self)@.wf(),
        ensures
            final(self)@.wf(),
            old(self)@.may_read(phase) ==> final(self)@ == old(self)@.after_read(n) && f == (
            Forward::Bytes {
                snapshot: old(self)@.snapshot_part(n),
                tail: (n - old(self)@.snapshot_part(n)) as usize,
            }),
            !old(self)@.may_read(phase) ==> final(self)@ == old(self)@ && f == Forward::Hold,
    {
        if !self.may_read(phase) {
            return Forward::Hold;
        }
        let left: u64 = self.rdb_size - self.rdb_read_count;
        let snapshot: usize = if n as u64 <= left {
            n
        } else {
            left as usize
        };
        self.rdb_read_count = self.rdb_read_count + snapshot as u64;
        self.offset.record(n - snapshot);
        Forward::Bytes { snapshot, tail: n - snapshot }
    }

    /// Says what to do when a read from the source has failed: a session
    /// that is still receiving its snapshot is lost; any other session
    /// continues behind the bytes received.
    pub fn on_failure(&self) -> (r: Recovery)
        ensures
            r == (if self@.rdb_read_count < self@.rdb_size {
                Recovery::Fatal
            } else {
                Recovery::Reconnect { offset: self@.offset }
            }),
    {
        if self.rdb_read_count < self.rdb_size {
            Recovery::Fatal
        } else {
            Recovery::Reconnect { offset: self.offset.load() }
        }
    }
}

} // verus!
