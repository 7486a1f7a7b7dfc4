//! A snapshot replayed: what the replay of a key and of the end of a
//! snapshot gives, proved from how they are written.
use crate::checksum::crc64_of;
use crate::cmd::{blob, number, text, ArgView};
use crate::encode::{enc_string, has_at, lemma_has_at_split};
use crate::endian::{le_bytes_u64, lemma_le_u64_round_trip};
use crate::errors::RdbError;
use crate::full::{
    spec_entry_commands,
    spec_full,
    spec_full_step,
    spec_key_commands,
    BIG_VALUE_BYTES,
};
use crate::loader::{
    blank_entry,
    lemma_next_advances,
    rdbFlagEOF,
    spec_footer,
    spec_next,
    spec_scan,
    spec_value_dump,
    EntryView,
    HitView,
    LoaderView,
    ScanView,
};
use crate::values::{lemma_entry_round_trip, Value};
use crate::wire::{spec_u64, spec_u8};
use vstd::prelude::*;

verus! {

/// The end of a snapshot whose bytes so far are `before`: the end marker,
/// and the checksum of all bytes up to and with the end marker.
pub open spec fn enc_end(before: Seq<u8>) -> Seq<u8> {
    seq![rdbFlagEOF] + le_bytes_u64(crc64_of(before + seq![rdbFlagEOF]))
}

/// At the end of a snapshot the replay verifies the checksum and is done:
/// where the end marker and the checksum of the bytes before it stand before
/// the decoder, a step of the replay returns no commands and no failure, and
/// the replay as a whole adds nothing.
pub proof fn lemma_end_of_snapshot(l: LoaderView, active: Option<u32>, now_ms: u64)
    requires
        l.wf(),
        l.reader.remainMember == 0,
        has_at(
            l.reader.raw,
            l.reader.nread,
            enc_end(l.reader.before + l.reader.raw.subrange(0, l.reader.nread)),
        ),
    ensures
        spec_full_step(l, active, now_ms).result == Ok::<Option<Seq<Seq<ArgView>>>, RdbError>(
            None,
        ),
        spec_full_step(l, active, now_ms).loader.reader.nread == l.reader.nread + 9,
        spec_full(l, active, now_ms).result == Ok::<Seq<Seq<ArgView>>, RdbError>(Seq::empty()),
{
    reveal(spec_full_step);
    let raw = l.reader.raw;
    let pos = l.reader.nread;
    let before = l.reader.before + raw.subrange(0, pos);
    let crc = crc64_of(before + seq![rdbFlagEOF]);
    lemma_has_at_split(raw, pos, seq![rdbFlagEOF], le_bytes_u64(crc));
    assert(raw[pos] == rdbFlagEOF) by {
        assert(raw.subrange(pos, pos + 1)[0] == rdbFlagEOF);
    }
    assert(spec_u8(raw, pos) == Ok::<(u8, int), RdbError>((rdbFlagEOF, pos + 1)));
    let blank = blank_entry();
    let found = spec_scan(raw, pos, l.db, blank.ExpireAt, blank.IdleTime, blank.Freq);
    assert(found == Ok::<ScanView, RdbError>(
        ScanView {
            next: pos + 1,
            db: l.db,
            ExpireAt: blank.ExpireAt,
            IdleTime: blank.IdleTime,
            Freq: blank.Freq,
            hit: HitView::End,
        },
    ));
    let step = spec_next(l, blank);
    assert(step.result == Err::<(), RdbError>(RdbError::RdbEnd));
    assert(l.reader.before + raw.subrange(0, pos + 1) =~= before + seq![rdbFlagEOF]);
    assert(step.loader.reader.crc64 == crc);
    lemma_le_u64_round_trip(crc);
    assert(spec_u64(raw, pos + 1) == Ok::<(u64, int), RdbError>((crc, pos + 9)));
    assert(spec_footer(raw, pos + 1, crc) is Ok);
}

/// A wrong checksum fails the replay: where the end marker stands before
/// the decoder and the eight bytes behind it do not spell the checksum of the
/// bytes up to and with the end marker, a step of the replay fails with
/// `Checksum`.
pub proof fn lemma_wrong_checksum(l: LoaderView, active: Option<u32>, now_ms: u64)
    requires
        l.wf(),
        l.reader.remainMember == 0,
        spec_u8(l.reader.raw, l.reader.nread) == Ok::<(u8, int), RdbError>(
            (rdbFlagEOF, l.reader.nread + 1),
        ),
        spec_u64(l.reader.raw, l.reader.nread + 1) matches Ok((stored, _)) && stored != crc64_of(
            l.reader.before + l.reader.raw.subrange(0, l.reader.nread + 1),
        ),
    ensures
        spec_full_step(l, active, now_ms).result == Err::<Option<Seq<Seq<ArgView>>>, RdbError>(
            RdbError::Checksum,
        ),
        spec_full(l, active, now_ms).result == Err::<Seq<Seq<ArgView>>, RdbError>(
            RdbError::Checksum,
        ),
{
    reveal(spec_full_step);
    let raw = l.reader.raw;
    let pos = l.reader.nread;
    let blank = blank_entry();
    let found = spec_scan(raw, pos, l.db, blank.ExpireAt, blank.IdleTime, blank.Freq);
    assert(found == Ok::<ScanView, RdbError>(
        ScanView {
            next: pos + 1,
            db: l.db,
            ExpireAt: blank.ExpireAt,
            IdleTime: blank.IdleTime,
            Freq: blank.Freq,
            hit: HitView::End,
        },
    ));
    let step = spec_next(l, blank);
    assert(step.result == Err::<(), RdbError>(RdbError::RdbEnd));
}

/// The replay of a small key at the end of a snapshot: where a value other
/// than a hash or a quicklist stands written under `key` before the decoder,
/// small enough to be loaded in bulk, and the end of the snapshot behind it,
/// the replay selects the database of the key unless it is the active one,
/// deletes the key, and loads the dump of the value without an expiry.
pub proof fn lemma_replay_small_key(
    l: LoaderView,
    active: Option<u32>,
    now_ms: u64,
    key: Seq<u8>,
    v: Value,
)
    requires
        l.wf(),
        l.reader.remainMember == 0,
        key.len() <= u32::MAX,
        v.fits(),
        !(v is Hash),
        !(v is Quicklist),
        spec_value_dump(v.tag(), v.encoded()).len() < BIG_VALUE_BYTES,
        has_at(l.reader.raw, l.reader.nread, v.entry_bytes(key)),
        has_at(
            l.reader.raw,
            l.reader.nread + v.entry_bytes(key).len(),
            enc_end(
                l.reader.before + l.reader.raw.subrange(
                    0,
                    l.reader.nread + v.entry_bytes(key).len(),
                ),
            ),
        ),
    ensures
        spec_full(l, active, now_ms).result == Ok::<Seq<Seq<ArgView>>, RdbError>(
            (if active == Some(l.db) {
                Seq::<Seq<ArgView>>::empty()
            } else {
                seq![seq![text("SELECT"), number(l.db as nat)]]
            }) + seq![
                seq![text("DEL"), blob(key)],
                seq![
                    text("RESTORE"),
                    blob(key),
                    number(0),
                    blob(spec_value_dump(v.tag(), v.encoded())),
                ],
            ],
        ),
{
    reveal(spec_full_step);
    let blank = blank_entry();
    lemma_entry_round_trip(l, blank, key, v);
    lemma_next_advances(l, blank);
    let step = spec_next(l, blank);
    let e = step.entry;
    let load = seq![
        seq![text("DEL"), blob(key)],
        seq![text("RESTORE"), blob(key), number(0), blob(spec_value_dump(v.tag(), v.encoded()))],
    ];
    assert(spec_key_commands(e, now_ms) == Ok::<Seq<Seq<ArgView>>, RdbError>(load));
    let first = spec_full_step(l, active, now_ms);
    assert(first.result == Ok::<Option<Seq<Seq<ArgView>>>, RdbError>(
        Some(spec_entry_commands(e, active, now_ms)->Ok_0),
    ));
    assert(first.loader == step.loader);
    lemma_end_of_snapshot(step.loader, first.active, now_ms);
    let cmds = spec_entry_commands(e, active, now_ms)->Ok_0;
    assert(cmds + Seq::<Seq<ArgView>>::empty() =~= cmds);
    if active == Some(l.db) {
        assert(Seq::<Seq<ArgView>>::empty() + load =~= load);
    }
}

} // verus!
