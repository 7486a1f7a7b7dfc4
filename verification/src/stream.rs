//! Decoding while the snapshot arrives: what has been decoded from the bytes
//! at hand is what is decoded when more bytes have arrived. Only a failure for
//! want of bytes can change, which is why a call that failed for want of
//! bytes is made again and every other result is final.
use crate::errors::RdbError;
use crate::full::{spec_entry_commands, spec_full_step, StepRun};
use crate::loader::{
    after_footer,
    entry_reader,
    lemma_module_value_advances,
    lemma_scan_advances,
    spec_footer,
    spec_module_value,
    spec_next,
    spec_scan,
    EntryView,
    HitView,
    LoaderView,
    ScanView,
};
use crate::loader::{
    blank_entry,
    rdbFlagEOF,
    rdbFlagExpiry,
    rdbFlagExpiryMS,
    rdbFlagFreq,
    rdbFlagIdle,
    rdbFlagModuleAux,
    rdbFlagSelectDB,
};
use crate::object::{
    lemma_hash_members_advance,
    lemma_object_advances,
    lemma_skip_advances,
    lemma_skip_groups_advances,
    rdbFlagResizeDB,
    spec_hash_members,
    spec_hash_span,
    spec_object,
    spec_skip_consumers,
    spec_skip_groups,
    spec_skip_pending,
    spec_skip_scored,
    spec_skip_stream,
    spec_skip_strings,
    RdbFlagAUX,
    RdbTypeHash,
};
use crate::wire::{
    lemma_wire_advances,
    spec_double,
    spec_encoded_length,
    spec_float,
    spec_length,
    spec_string,
    spec_take,
    spec_u16,
    spec_u32,
    spec_u32_be,
    spec_u64,
    spec_u64_be,
    spec_u8,
};
use vstd::prelude::*;

verus! {

/// Bytes that could be taken are taken the same when more bytes have
/// arrived.
pub proof fn lemma_take_stable(raw: Seq<u8>, more: Seq<u8>, pos: int, n: int)
    requires
        spec_take(raw, pos, n) is Ok,
    ensures
        spec_take(raw + more, pos, n) == spec_take(raw, pos, n),
{
    assert((raw + more).subrange(pos, pos + n) =~= raw.subrange(pos, pos + n));
}

/// Whatever bytes could be taken are taken the same when more bytes have
/// arrived.
pub proof fn lemma_takes_stable(raw: Seq<u8>, more: Seq<u8>)
    ensures
        forall|pos: int, n: int| #[trigger]
            spec_take(raw, pos, n) is Ok ==> spec_take(raw + more, pos, n) == spec_take(
                raw,
                pos,
                n,
            ),
{
    assert forall|pos: int, n: int| #[trigger] spec_take(raw, pos, n) is Ok implies spec_take(
        raw + more,
        pos,
        n,
    ) == spec_take(raw, pos, n) by {
        lemma_take_stable(raw, more, pos, n);
    }
}

/// Whether a result is final: any result but a failure for want of bytes.
pub open spec fn is_final<T>(r: Result<T, RdbError>) -> bool {
    r != Err::<T, RdbError>(RdbError::Io)
}

/// Lengths, strings and numbers are read the same when more bytes have
/// arrived, and so are the failures to read them, but for a failure for want
/// of bytes.
pub proof fn lemma_wire_stable(raw: Seq<u8>, more: Seq<u8>, pos: int)
    ensures
        is_final(spec_u8(raw, pos)) ==> spec_u8(raw + more, pos) == spec_u8(raw, pos),
        is_final(spec_u32(raw, pos)) ==> spec_u32(raw + more, pos) == spec_u32(raw, pos),
        is_final(spec_u64(raw, pos)) ==> spec_u64(raw + more, pos) == spec_u64(raw, pos),
        is_final(spec_double(raw, pos)) ==> spec_double(raw + more, pos) == spec_double(raw, pos),
        is_final(spec_encoded_length(raw, pos)) ==> spec_encoded_length(raw + more, pos)
            == spec_encoded_length(raw, pos),
        is_final(spec_length(raw, pos)) ==> spec_length(raw + more, pos) == spec_length(raw, pos),
        is_final(spec_string(raw, pos)) ==> spec_string(raw + more, pos) == spec_string(raw, pos),
        is_final(spec_float(raw, pos)) ==> spec_float(raw + more, pos) == spec_float(raw, pos),
{
    lemma_takes_stable(raw, more);
    lemma_encoded_length_stable(raw, more, pos);
    if is_final(spec_string(raw, pos)) {
        reveal(spec_string);
        match spec_encoded_length(raw, pos) {
            Ok(((n, encoded), at1)) => {
                if encoded && n == 3 {
                    lemma_encoded_length_stable(raw, more, at1);
                    match spec_length(raw, at1) {
                        Ok((_, at2)) => {
                            lemma_encoded_length_stable(raw, more, at2);
                        },
                        _ => {},
                    }
                }
            },
            _ => {},
        }
    }
    if is_final(spec_float(raw, pos)) {
        reveal(spec_float);
    }
}

/// A length is read the same when more bytes have arrived.
pub proof fn lemma_encoded_length_stable(raw: Seq<u8>, more: Seq<u8>, pos: int)
    ensures
        is_final(spec_encoded_length(raw, pos)) ==> spec_encoded_length(raw + more, pos)
            == spec_encoded_length(raw, pos),
        is_final(spec_length(raw, pos)) ==> spec_length(raw + more, pos) == spec_length(raw, pos),
{
    reveal(spec_encoded_length);
    lemma_takes_stable(raw, more);
}

/// Values that could be passed over are passed over the same when more
/// bytes have arrived.
pub proof fn lemma_skips_stable(raw: Seq<u8>, more: Seq<u8>, pos: int, count: nat, binary: bool)
    requires
        0 <= pos <= raw.len(),
    ensures
        is_final(spec_skip_strings(raw, pos, count)) ==> spec_skip_strings(raw + more, pos, count)
            == spec_skip_strings(raw, pos, count),
        is_final(spec_skip_scored(raw, pos, count, binary)) ==> spec_skip_scored(
            raw + more,
            pos,
            count,
            binary,
        ) == spec_skip_scored(raw, pos, count, binary),
        is_final(spec_skip_pending(raw, pos, count)) ==> spec_skip_pending(raw + more, pos, count)
            == spec_skip_pending(raw, pos, count),
        is_final(spec_skip_consumers(raw, pos, count)) ==> spec_skip_consumers(
            raw + more,
            pos,
            count,
        ) == spec_skip_consumers(raw, pos, count),
    decreases count,
{
    if count > 0 {
        lemma_takes_stable(raw, more);
        lemma_wire_stable(raw, more, pos);
        lemma_wire_advances(raw, pos);
        match spec_string(raw, pos) {
            Ok((_, at1)) => {
                lemma_skips_stable(raw, more, at1, (count - 1) as nat, binary);
                lemma_wire_stable(raw, more, at1);
                lemma_wire_advances(raw, at1);
                match spec_float(raw, at1) {
                    Ok((_, at2)) => lemma_skips_stable(
                        raw,
                        more,
                        at2,
                        (count - 1) as nat,
                        binary,
                    ),
                    _ => {},
                }
                match spec_double(raw, at1) {
                    Ok((_, at2)) => lemma_skips_stable(
                        raw,
                        more,
                        at2,
                        (count - 1) as nat,
                        binary,
                    ),
                    _ => {},
                }
                match spec_take(raw, at1, 8) {
                    Ok((_, at2)) => {
                        lemma_wire_stable(raw, more, at2);
                        lemma_wire_advances(raw, at2);
                        match spec_length(raw, at2) {
                            Ok((owned, at3)) => match spec_take(raw, at3, 16 * owned) {
                                Ok((_, at4)) => lemma_skips_stable(
                                    raw,
                                    more,
                                    at4,
                                    (count - 1) as nat,
                                    binary,
                                ),
                                _ => {},
                            },
                            _ => {},
                        }
                    },
                    _ => {},
                }
            },
            _ => {},
        }
        match spec_take(raw, pos, 24) {
            Ok((_, at1)) => {
                lemma_wire_stable(raw, more, at1);
                lemma_wire_advances(raw, at1);
                match spec_length(raw, at1) {
                    Ok((_, at2)) => lemma_skips_stable(
                        raw,
                        more,
                        at2,
                        (count - 1) as nat,
                        binary,
                    ),
                    _ => {},
                }
            },
            _ => {},
        }
    }
}

/// The members of a hash that an entry takes are the same when more bytes
/// have arrived.
pub proof fn lemma_hash_members_stable(
    raw: Seq<u8>,
    more: Seq<u8>,
    pos: int,
    n: nat,
    i: nat,
    cached: int,
)
    requires
        0 <= pos <= raw.len(),
    ensures
        is_final(spec_hash_members(raw, pos, n, i, cached)) ==> spec_hash_members(
            raw + more,
            pos,
            n,
            i,
            cached,
        ) == spec_hash_members(raw, pos, n, i, cached),
    decreases n - i,
{
    if i < n {
        lemma_wire_stable(raw, more, pos);
        lemma_wire_advances(raw, pos);
        match spec_string(raw, pos) {
            Ok((_, at1)) => {
                lemma_wire_stable(raw, more, at1);
                lemma_wire_advances(raw, at1);
                match spec_string(raw, at1) {
                    Ok((_, at2)) => lemma_hash_members_stable(
                        raw,
                        more,
                        at2,
                        n,
                        i + 1,
                        cached + (at2 - pos),
                    ),
                    _ => {},
                }
            },
            _ => {},
        }
    }
}

/// Consumer groups that could be passed over are passed over the same when
/// more bytes have arrived.
pub proof fn lemma_groups_stable(raw: Seq<u8>, more: Seq<u8>, pos: int, count: nat)
    requires
        0 <= pos <= raw.len(),
    ensures
        is_final(spec_skip_groups(raw, pos, count)) ==> spec_skip_groups(raw + more, pos, count)
            == spec_skip_groups(raw, pos, count),
    decreases count,
{
    if count > 0 {
        lemma_wire_stable(raw, more, pos);
        lemma_wire_advances(raw, pos);
        match spec_string(raw, pos) {
            Ok((_, at1)) => {
                lemma_wire_stable(raw, more, at1);
                lemma_wire_advances(raw, at1);
                match spec_length(raw, at1) {
                    Ok((_, at2)) => {
                        lemma_wire_stable(raw, more, at2);
                        lemma_wire_advances(raw, at2);
                        match spec_length(raw, at2) {
                            Ok((_, at3)) => {
                                lemma_wire_stable(raw, more, at3);
                                lemma_wire_advances(raw, at3);
                                match spec_length(raw, at3) {
                                    Ok((pending, at4)) => {
                                        lemma_skips_stable(raw, more, at4, pending as nat, false);
                                        lemma_skip_advances(raw, at4, pending as nat, false);
                                        match spec_skip_pending(raw, at4, pending as nat) {
                                            Ok(at5) => {
                                                lemma_wire_stable(raw, more, at5);
                                                lemma_wire_advances(raw, at5);
                                                match spec_length(raw, at5) {
                                                    Ok((consumers, at6)) => {
                                                        lemma_skips_stable(
                                                            raw,
                                                            more,
                                                            at6,
                                                            consumers as nat,
                                                            false,
                                                        );
                                                        lemma_skip_advances(
                                                            raw,
                                                            at6,
                                                            consumers as nat,
                                                            false,
                                                        );
                                                        match spec_skip_consumers(
                                                            raw,
                                                            at6,
                                                            consumers as nat,
                                                        ) {
                                                            Ok(at7) => lemma_groups_stable(
                                                                raw,
                                                                more,
                                                                at7,
                                                                (count - 1) as nat,
                                                            ),
                                                            _ => {},
                                                        }
                                                    },
                                                    _ => {},
                                                }
                                            },
                                            _ => {},
                                        }
                                    },
                                    _ => {},
                                }
                            },
                            _ => {},
                        }
                    },
                    _ => {},
                }
            },
            _ => {},
        }
    }
}

/// A stream that could be passed over is passed over the same when more
/// bytes have arrived.
pub proof fn lemma_stream_stable(raw: Seq<u8>, more: Seq<u8>, pos: int)
    requires
        0 <= pos <= raw.len(),
    ensures
        is_final(spec_skip_stream(raw, pos)) ==> spec_skip_stream(raw + more, pos)
            == spec_skip_stream(raw, pos),
{
    lemma_wire_stable(raw, more, pos);
    lemma_wire_advances(raw, pos);
    match spec_length(raw, pos) {
        Ok((packs, at1)) => {
            lemma_skips_stable(raw, more, at1, 2 * packs as nat, false);
            lemma_skip_advances(raw, at1, 2 * packs as nat, false);
            match spec_skip_strings(raw, at1, 2 * packs as nat) {
                Ok(at2) => {
                    lemma_wire_stable(raw, more, at2);
                    lemma_wire_advances(raw, at2);
                    match spec_length(raw, at2) {
                        Ok((_, at3)) => {
                            lemma_wire_stable(raw, more, at3);
                            lemma_wire_advances(raw, at3);
                            match spec_length(raw, at3) {
                                Ok((_, at4)) => {
                                    lemma_wire_stable(raw, more, at4);
                                    lemma_wire_advances(raw, at4);
                                    match spec_length(raw, at4) {
                                        Ok((_, at5)) => {
                                            lemma_wire_stable(raw, more, at5);
                                            lemma_wire_advances(raw, at5);
                                            match spec_length(raw, at5) {
                                                Ok((groups, at6)) => lemma_groups_stable(
                                                    raw,
                                                    more,
                                                    at6,
                                                    groups as nat,
                                                ),
                                                _ => {},
                                            }
                                        },
                                        _ => {},
                                    }
                                },
                                _ => {},
                            }
                        },
                        _ => {},
                    }
                },
                _ => {},
            }
        },
        _ => {},
    }
}

/// The end of a value is found the same when more bytes have arrived.
pub proof fn lemma_object_stable(
    raw: Seq<u8>,
    more: Seq<u8>,
    pos: int,
    t: u8,
    remain: u32,
    tot: u32,
    cached: int,
)
    requires
        0 <= pos <= raw.len(),
    ensures
        is_final(spec_object(raw, pos, t, remain, tot, cached)) ==> spec_object(
            raw + more,
            pos,
            t,
            remain,
            tot,
            cached,
        ) == spec_object(raw, pos, t, remain, tot, cached),
{
    lemma_wire_stable(raw, more, pos);
    lemma_wire_advances(raw, pos);
    match spec_length(raw, pos) {
        Ok((n, at1)) => {
            lemma_skips_stable(raw, more, at1, n as nat, true);
            lemma_skips_stable(raw, more, at1, n as nat, false);
            lemma_hash_members_stable(raw, more, at1, n as nat, 0, cached + (at1 - pos));
        },
        _ => {},
    }
    lemma_hash_members_stable(raw, more, pos, remain as nat, 0, cached);
    lemma_stream_stable(raw, more, pos);
}

/// The value of a module is passed over the same when more bytes have
/// arrived.
pub proof fn lemma_module_value_stable(raw: Seq<u8>, more: Seq<u8>, pos: int)
    requires
        0 <= pos <= raw.len(),
    ensures
        is_final(spec_module_value(raw, pos)) ==> spec_module_value(raw + more, pos)
            == spec_module_value(raw, pos),
    decreases raw.len() - pos,
{
    lemma_wire_stable(raw, more, pos);
    lemma_wire_advances(raw, pos);
    match spec_length(raw, pos) {
        Ok((opcode, at1)) => {
            lemma_wire_stable(raw, more, at1);
            lemma_wire_advances(raw, at1);
            if opcode != 0 {
                if opcode == 1 || opcode == 2 {
                    match spec_length(raw, at1) {
                        Ok((_, at2)) => lemma_module_value_stable(raw, more, at2),
                        _ => {},
                    }
                } else if opcode == 5 {
                    match spec_string(raw, at1) {
                        Ok((_, at2)) => lemma_module_value_stable(raw, more, at2),
                        _ => {},
                    }
                } else if opcode == 3 {
                    match spec_float(raw, at1) {
                        Ok((_, at2)) => lemma_module_value_stable(raw, more, at2),
                        _ => {},
                    }
                } else if opcode == 4 {
                    match spec_double(raw, at1) {
                        Ok((_, at2)) => lemma_module_value_stable(raw, more, at2),
                        _ => {},
                    }
                } else {
                    lemma_module_value_stable(raw, more, at1);
                }
            }
        },
        _ => {},
    }
}

/// A walk over the opcodes ends the same when more bytes have arrived.
pub proof fn lemma_scan_stable(
    raw: Seq<u8>,
    more: Seq<u8>,
    pos: int,
    db: u32,
    expire: u64,
    idle: u32,
    freq: u8,
)
    requires
        0 <= pos <= raw.len(),
    ensures
        is_final(spec_scan(raw, pos, db, expire, idle, freq)) ==> spec_scan(
            raw + more,
            pos,
            db,
            expire,
            idle,
            freq,
        ) == spec_scan(raw, pos, db, expire, idle, freq),
    decreases raw.len() - pos,
{
    lemma_wire_stable(raw, more, pos);
    lemma_wire_advances(raw, pos);
    match spec_u8(raw, pos) {
        Err(e) => {},
        Ok((t, at1)) => {
            lemma_wire_stable(raw, more, at1);
            lemma_wire_advances(raw, at1);
            if t == RdbFlagAUX {
                match spec_string(raw, at1) {
                    Ok((key, at2)) => {
                        lemma_wire_stable(raw, more, at2);
                        lemma_wire_advances(raw, at2);
                        match spec_string(raw, at2) {
                            Ok((value, at3)) => {
                                lemma_scan_stable(raw, more, at3, db, expire, idle, freq);
                            },
                            _ => {},
                        }
                    },
                    _ => {},
                }
            } else if t == rdbFlagResizeDB {
                match spec_length(raw, at1) {
                    Ok((_, at2)) => {
                        lemma_wire_stable(raw, more, at2);
                        lemma_wire_advances(raw, at2);
                        match spec_length(raw, at2) {
                            Ok((_, at3)) => lemma_scan_stable(
                                raw,
                                more,
                                at3,
                                db,
                                expire,
                                idle,
                                freq,
                            ),
                            _ => {},
                        }
                    },
                    _ => {},
                }
            } else if t == rdbFlagExpiryMS {
                match spec_u64(raw, at1) {
                    Ok((ms, at2)) => lemma_scan_stable(raw, more, at2, db, ms, idle, freq),
                    _ => {},
                }
            } else if t == rdbFlagExpiry {
                match spec_u32(raw, at1) {
                    Ok((s, at2)) => lemma_scan_stable(
                        raw,
                        more,
                        at2,
                        db,
                        (s * 1000) as u64,
                        idle,
                        freq,
                    ),
                    _ => {},
                }
            } else if t == rdbFlagSelectDB {
                match spec_length(raw, at1) {
                    Ok((n, at2)) => lemma_scan_stable(raw, more, at2, n, expire, idle, freq),
                    _ => {},
                }
            } else if t == rdbFlagEOF {
            } else if t == rdbFlagModuleAux {
                match spec_length(raw, at1) {
                    Ok((_, at2)) => {
                        lemma_module_value_stable(raw, more, at2);
                        lemma_module_value_advances(raw, at2);
                        match spec_module_value(raw, at2) {
                            Ok(at3) => lemma_scan_stable(raw, more, at3, db, expire, idle, freq),
                            _ => {},
                        }
                    },
                    _ => {},
                }
            } else if t == rdbFlagIdle {
                match spec_length(raw, at1) {
                    Ok((n, at2)) => lemma_scan_stable(raw, more, at2, db, expire, n, freq),
                    _ => {},
                }
            } else if t == rdbFlagFreq {
                match spec_u8(raw, at1) {
                    Ok((f, at2)) => lemma_scan_stable(raw, more, at2, db, expire, idle, f),
                    _ => {},
                }
            } else {
                match spec_string(raw, at1) {
                    Ok((key, at2)) => lemma_object_stable(raw, more, at2, t, 0, 0, 0),
                    _ => {},
                }
            }
        },
    }
}

/// What has been decoded is final. Where a call for the next entry does
/// not fail for want of bytes, the same call after more bytes have arrived
/// returns the same, hands out the same entry, and leaves the decoder in the
/// same state, but for the bytes that have arrived.
pub proof fn lemma_next_stable(l: LoaderView, e: EntryView, more: Seq<u8>)
    requires
        l.wf(),
        is_final(spec_next(l, e).result),
    ensures
        spec_next(l.fed(more), e).result == spec_next(l, e).result,
        spec_next(l.fed(more), e).entry == spec_next(l, e).entry,
        spec_next(l.fed(more), e).loader == spec_next(l, e).loader.fed(more),
{
    let rd = l.reader;
    let raw = rd.raw;
    let all = raw + more;
    let pre = spec_next(l, e);
    let post = spec_next(l.fed(more), e);
    if rd.remainMember != 0 {
        lemma_object_stable(
            raw,
            more,
            rd.nread,
            l.last.Type,
            rd.remainMember,
            rd.totMemberCount,
            0,
        );
        lemma_object_advances(
            raw,
            rd.nread,
            l.last.Type,
            rd.remainMember,
            rd.totMemberCount,
            0,
        );
        match spec_object(raw, rd.nread, l.last.Type, rd.remainMember, rd.totMemberCount, 0) {
            Ok(span) => {
                assert(all.subrange(rd.nread, span.next) =~= raw.subrange(rd.nread, span.next));
                assert(all.subrange(0, span.next) =~= raw.subrange(0, span.next));
                assert(post.loader.reader =~= pre.loader.reader.fed(more));
            },
            Err(err) => {},
        }
    } else {
        lemma_scan_stable(raw, more, rd.nread, l.db, e.ExpireAt, e.IdleTime, e.Freq);
        lemma_scan_advances(raw, rd.nread, l.db, e.ExpireAt, e.IdleTime, e.Freq);
        match spec_scan(raw, rd.nread, l.db, e.ExpireAt, e.IdleTime, e.Freq) {
            Ok(found) => {
                assert(all.subrange(0, found.next) =~= raw.subrange(0, found.next));
                assert(all.subrange(rd.nread, found.next) =~= raw.subrange(rd.nread, found.next));
                match found.hit {
                    HitView::Value { t, key, start, span } => {
                        assert(all.subrange(start, span.next) =~= raw.subrange(start, span.next));
                        assert(post.loader.reader =~= pre.loader.reader.fed(more));
                    },
                    _ => {
                        assert(post.loader.reader =~= pre.loader.reader.fed(more));
                    },
                }
            },
            Err(err) => {},
        }
    }
}

/// A step of the replay is final. Where a step does not fail for want of
/// bytes, the same step after more bytes have arrived returns the same
/// commands or the same failure, and leaves the decoder in the same state,
/// but for the bytes that have arrived.
pub proof fn lemma_full_step_stable(
    l: LoaderView,
    active: Option<u32>,
    now_ms: u64,
    more: Seq<u8>,
)
    requires
        l.wf(),
        is_final(spec_full_step(l, active, now_ms).result),
    ensures
        spec_full_step(l.fed(more), active, now_ms).result == spec_full_step(
            l,
            active,
            now_ms,
        ).result,
        spec_full_step(l.fed(more), active, now_ms).active == spec_full_step(
            l,
            active,
            now_ms,
        ).active,
        spec_full_step(l.fed(more), active, now_ms).loader == spec_full_step(
            l,
            active,
            now_ms,
        ).loader.fed(more),
{
    reveal(spec_full_step);
    let blank = blank_entry();
    let step = spec_next(l, blank);
    if is_final(step.result) {
        lemma_next_stable(l, blank, more);
        crate::loader::lemma_next_advances(l, blank);
        if step.result == Err::<(), RdbError>(RdbError::RdbEnd) {
            let rd = step.loader.reader;
            lemma_wire_stable(rd.raw, more, rd.nread);
            match spec_u64(rd.raw, rd.nread) {
                Ok((_, next)) => {
                    assert((rd.raw + more).subrange(0, next) =~= rd.raw.subrange(0, next));
                    assert(after_footer(step.loader.fed(more)).reader =~= after_footer(
                        step.loader,
                    ).reader.fed(more));
                },
                Err(_) => {},
            }
        }
    }
}

} // verus!
