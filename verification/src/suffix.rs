//! Decoding depends only on the bytes that lie ahead: what is read at a
//! position is what is read from any other bytes that hold the same from
//! their position on. This is why a decoder may give up the bytes that it has
//! read.
use crate::errors::RdbError;
use crate::loader::{
    lemma_module_value_advances,
    lemma_next_advances,
    lemma_scan_advances,
    rdbFlagEOF,
    rdbFlagExpiry,
    rdbFlagExpiryMS,
    rdbFlagFreq,
    rdbFlagIdle,
    rdbFlagModuleAux,
    rdbFlagSelectDB,
    spec_module_value,
    spec_next,
    spec_scan,
    EntryView,
    HitView,
    LoaderView,
    ScanView,
};
use crate::object::{
    lemma_hash_members_advance,
    lemma_object_advances,
    lemma_skip_advances,
    lemma_skip_groups_advances,
    rdbFlagResizeDB,
    spec_hash_members,
    spec_object,
    spec_skip_consumers,
    spec_skip_groups,
    spec_skip_pending,
    spec_skip_scored,
    spec_skip_stream,
    spec_skip_strings,
    ObjectSpan,
    RdbFlagAUX,
};
use crate::wire::{
    lemma_wire_advances,
    spec_double,
    spec_encoded_length,
    spec_float,
    spec_length,
    spec_string,
    spec_take,
    spec_u32,
    spec_u64,
    spec_u8,
    Parsed,
};
use vstd::prelude::*;

verus! {

/// Whether `a` from `p` on holds the same bytes as `b` from `q` on.
pub open spec fn same_ahead(a: Seq<u8>, p: int, b: Seq<u8>, q: int) -> bool {
    0 <= p <= a.len() && 0 <= q <= b.len() && a.subrange(p, a.len() as int) == b.subrange(
        q,
        b.len() as int,
    )
}

/// A value read, with the position behind it moved by `d`.
pub open spec fn moved<T>(r: Parsed<T>, d: int) -> Parsed<T> {
    match r {
        Ok((v, next)) => Ok((v, next + d)),
        Err(e) => Err(e),
    }
}

/// A position found, moved by `d`.
pub open spec fn moved_pos(r: Result<int, RdbError>, d: int) -> Result<int, RdbError> {
    match r {
        Ok(next) => Ok(next + d),
        Err(e) => Err(e),
    }
}

/// Bytes that hold the same from two positions on hold the same from any
/// two later positions that lie as far behind them.
pub proof fn lemma_same_ahead_later(a: Seq<u8>, p: int, b: Seq<u8>, q: int, k: int)
    requires
        same_ahead(a, p, b, q),
        p <= k <= a.len(),
    ensures
        same_ahead(a, k, b, k + q - p),
        a.len() - p == b.len() - q,
{
    let sa = a.subrange(p, a.len() as int);
    let sb = b.subrange(q, b.len() as int);
    assert(sa.len() == sb.len());
    assert(a.subrange(k, a.len() as int) =~= sa.subrange(k - p, sa.len() as int));
    assert(b.subrange(k + q - p, b.len() as int) =~= sb.subrange(k - p, sb.len() as int));
}

/// The same bytes are taken from bytes that hold the same ahead.
pub proof fn lemma_take_ahead(a: Seq<u8>, p: int, b: Seq<u8>, q: int, k: int, n: int)
    requires
        same_ahead(a, p, b, q),
        p <= k,
    ensures
        spec_take(b, k + q - p, n) == moved(spec_take(a, k, n), q - p),
{
    if k <= a.len() {
        lemma_same_ahead_later(a, p, b, q, k);
        if n >= 0 && k + n <= a.len() {
            let sa = a.subrange(k, a.len() as int);
            let sb = b.subrange(k + q - p, b.len() as int);
            assert(a.subrange(k, k + n) =~= sa.subrange(0, n));
            assert(b.subrange(k + q - p, k + q - p + n) =~= sb.subrange(0, n));
        }
    } else {
        lemma_same_ahead_later(a, p, b, q, p);
    }
}

/// Whatever is taken is taken the same from bytes that hold the same
/// ahead.
pub proof fn lemma_takes_ahead(a: Seq<u8>, p: int, b: Seq<u8>, q: int)
    requires
        same_ahead(a, p, b, q),
    ensures
        forall|k: int, n: int|
            p <= k ==> #[trigger] spec_take(b, k + q - p, n) == moved(
                spec_take(a, k, n),
                q - p,
            ),
        forall|k: int, n: int|
            p <= k ==> spec_take(b, k + (q - p), n) == moved(
                #[trigger] spec_take(a, k, n),
                q - p,
            ),
{
    assert forall|k: int, n: int| p <= k implies #[trigger] spec_take(b, k + q - p, n) == moved(
        spec_take(a, k, n),
        q - p,
    ) by {
        lemma_take_ahead(a, p, b, q, k, n);
    }
    assert forall|k: int, n: int| p <= k implies spec_take(b, k + (q - p), n) == moved(
        #[trigger] spec_take(a, k, n),
        q - p,
    ) by {
        lemma_take_ahead(a, p, b, q, k, n);
    }
}

/// A length is read the same from bytes that hold the same ahead.
pub proof fn lemma_length_ahead(a: Seq<u8>, p: int, b: Seq<u8>, q: int)
    requires
        same_ahead(a, p, b, q),
    ensures
        spec_encoded_length(b, q) == moved(spec_encoded_length(a, p), q - p),
        spec_length(b, q) == moved(spec_length(a, p), q - p),
{
    reveal(spec_encoded_length);
    lemma_takes_ahead(a, p, b, q);
    lemma_take_ahead(a, p, b, q, p, 1);
    lemma_take_ahead(a, p, b, q, p + 1, 1);
    lemma_take_ahead(a, p, b, q, p + 1, 4);
    lemma_take_ahead(a, p, b, q, p + 1, 8);
}

/// Lengths, strings and numbers are read the same from bytes that hold the
/// same ahead.
pub proof fn lemma_wire_ahead(a: Seq<u8>, p: int, b: Seq<u8>, q: int)
    requires
        same_ahead(a, p, b, q),
    ensures
        spec_u8(b, q) == moved(spec_u8(a, p), q - p),
        spec_u32(b, q) == moved(spec_u32(a, p), q - p),
        spec_u64(b, q) == moved(spec_u64(a, p), q - p),
        spec_double(b, q) == moved(spec_double(a, p), q - p),
        spec_encoded_length(b, q) == moved(spec_encoded_length(a, p), q - p),
        spec_length(b, q) == moved(spec_length(a, p), q - p),
        spec_string(b, q) == moved(spec_string(a, p), q - p),
        spec_float(b, q) == moved(spec_float(a, p), q - p),
{
    let d = q - p;
    lemma_take_ahead(a, p, b, q, p, 1);
    lemma_take_ahead(a, p, b, q, p, 4);
    lemma_take_ahead(a, p, b, q, p, 8);
    lemma_length_ahead(a, p, b, q);
    lemma_wire_advances(a, p);
    assert(spec_string(b, q) == moved(spec_string(a, p), d)) by {
        reveal(spec_string);
        match spec_encoded_length(a, p) {
            Ok(((n, encoded), at1)) => {
                lemma_take_ahead(a, p, b, q, at1, n as int);
                lemma_take_ahead(a, p, b, q, at1, 1);
                lemma_take_ahead(a, p, b, q, at1, 2);
                lemma_take_ahead(a, p, b, q, at1, 4);
                lemma_same_ahead_later(a, p, b, q, at1);
                lemma_length_ahead(a, at1, b, at1 + d);
                lemma_wire_advances(a, at1);
                match spec_length(a, at1) {
                    Ok((inlen, at2)) => {
                        lemma_same_ahead_later(a, p, b, q, at2);
                        lemma_length_ahead(a, at2, b, at2 + d);
                        lemma_wire_advances(a, at2);
                        match spec_length(a, at2) {
                            Ok((_, at3)) => {
                                lemma_take_ahead(a, p, b, q, at3, inlen as int);
                            },
                            _ => {},
                        }
                    },
                    _ => {},
                }
            },
            _ => {},
        }
    }
    assert(spec_float(b, q) == moved(spec_float(a, p), d)) by {
        reveal(spec_float);
        match spec_u8(a, p) {
            Ok((u, at1)) => {
                lemma_take_ahead(a, p, b, q, at1, u as int);
            },
            _ => {},
        }
    }
}

/// A string is read the same in bytes that hold the same ahead, which
/// hold the same behind the string too.
pub proof fn lemma_string_step(a: Seq<u8>, p: int, b: Seq<u8>, q: int)
    requires
        same_ahead(a, p, b, q),
    ensures
        spec_string(b, q) == moved(spec_string(a, p), q - p),
        spec_string(a, p) matches Ok((_, next)) ==> p < next && same_ahead(
            a,
            next,
            b,
            next + q - p,
        ),
{
    lemma_wire_ahead(a, p, b, q);
    lemma_wire_advances(a, p);
    match spec_string(a, p) {
        Ok((_, next)) => lemma_same_ahead_later(a, p, b, q, next),
        _ => {},
    }
}

/// A length is read the same in bytes that hold the same ahead, which hold
/// the same behind the length too.
pub proof fn lemma_length_step(a: Seq<u8>, p: int, b: Seq<u8>, q: int)
    requires
        same_ahead(a, p, b, q),
    ensures
        spec_length(b, q) == moved(spec_length(a, p), q - p),
        spec_length(a, p) matches Ok((_, next)) ==> p < next && same_ahead(
            a,
            next,
            b,
            next + q - p,
        ),
{
    lemma_length_ahead(a, p, b, q);
    lemma_wire_advances(a, p);
    match spec_length(a, p) {
        Ok((_, next)) => lemma_same_ahead_later(a, p, b, q, next),
        _ => {},
    }
}

/// A score is read the same in bytes that hold the same ahead, which hold
/// the same behind the score too.
pub proof fn lemma_score_step(a: Seq<u8>, p: int, b: Seq<u8>, q: int)
    requires
        same_ahead(a, p, b, q),
    ensures
        spec_float(b, q) == moved(spec_float(a, p), q - p),
        spec_float(a, p) matches Ok((_, next)) ==> p < next && same_ahead(
            a,
            next,
            b,
            next + q - p,
        ),
        spec_double(b, q) == moved(spec_double(a, p), q - p),
        spec_double(a, p) matches Ok((_, next)) ==> p < next && same_ahead(
            a,
            next,
            b,
            next + q - p,
        ),
{
    lemma_wire_ahead(a, p, b, q);
    lemma_wire_advances(a, p);
    match spec_float(a, p) {
        Ok((_, next)) => lemma_same_ahead_later(a, p, b, q, next),
        _ => {},
    }
    match spec_double(a, p) {
        Ok((_, next)) => lemma_same_ahead_later(a, p, b, q, next),
        _ => {},
    }
}

/// Numbers of fixed width are read the same in bytes that hold the same
/// ahead, which hold the same behind the numbers too.
pub proof fn lemma_number_step(a: Seq<u8>, p: int, b: Seq<u8>, q: int)
    requires
        same_ahead(a, p, b, q),
    ensures
        spec_u8(b, q) == moved(spec_u8(a, p), q - p),
        spec_u8(a, p) matches Ok((_, next)) ==> p < next && same_ahead(a, next, b, next + q - p),
        spec_u32(b, q) == moved(spec_u32(a, p), q - p),
        spec_u32(a, p) matches Ok((_, next)) ==> p < next && same_ahead(a, next, b, next + q - p),
        spec_u64(b, q) == moved(spec_u64(a, p), q - p),
        spec_u64(a, p) matches Ok((_, next)) ==> p < next && same_ahead(a, next, b, next + q - p),
{
    lemma_take_ahead(a, p, b, q, p, 1);
    lemma_take_ahead(a, p, b, q, p, 4);
    lemma_take_ahead(a, p, b, q, p, 8);
    if p + 1 <= a.len() {
        lemma_same_ahead_later(a, p, b, q, p + 1);
    }
    if p + 4 <= a.len() {
        lemma_same_ahead_later(a, p, b, q, p + 4);
    }
    if p + 8 <= a.len() {
        lemma_same_ahead_later(a, p, b, q, p + 8);
    }
}

/// Bytes are taken the same from bytes that hold the same ahead, which
/// hold the same behind the bytes taken too.
pub proof fn lemma_take_step(a: Seq<u8>, p: int, b: Seq<u8>, q: int, n: int)
    requires
        same_ahead(a, p, b, q),
    ensures
        spec_take(b, q, n) == moved(spec_take(a, p, n), q - p),
        spec_take(a, p, n) matches Ok((_, next)) ==> p <= next && same_ahead(
            a,
            next,
            b,
            next + q - p,
        ),
{
    lemma_take_ahead(a, p, b, q, p, n);
    match spec_take(a, p, n) {
        Ok((_, next)) => lemma_same_ahead_later(a, p, b, q, next),
        _ => {},
    }
}

/// Strings are passed over the same in bytes that hold the same ahead.
pub proof fn lemma_skip_strings_ahead(a: Seq<u8>, p: int, b: Seq<u8>, q: int, count: nat)
    requires
        same_ahead(a, p, b, q),
    ensures
        spec_skip_strings(b, q, count) == moved_pos(spec_skip_strings(a, p, count), q - p),
        spec_skip_strings(a, p, count) matches Ok(next) ==> p <= next && same_ahead(
            a,
            next,
            b,
            next + q - p,
        ),
    decreases count,
{
    if count > 0 {
        lemma_string_step(a, p, b, q);
        match spec_string(a, p) {
            Ok((_, at1)) => lemma_skip_strings_ahead(
                a,
                at1,
                b,
                at1 + q - p,
                (count - 1) as nat,
            ),
            _ => {},
        }
    }
}

/// Members of a sorted set are passed over the same in bytes that hold the
/// same ahead.
pub proof fn lemma_skip_scored_ahead(
    a: Seq<u8>,
    p: int,
    b: Seq<u8>,
    q: int,
    count: nat,
    binary: bool,
)
    requires
        same_ahead(a, p, b, q),
    ensures
        spec_skip_scored(b, q, count, binary) == moved_pos(
            spec_skip_scored(a, p, count, binary),
            q - p,
        ),
    decreases count,
{
    if count > 0 {
        lemma_string_step(a, p, b, q);
        match spec_string(a, p) {
            Ok((_, at1)) => {
                lemma_score_step(a, at1, b, at1 + q - p);
                if binary {
                    match spec_double(a, at1) {
                        Ok((_, at2)) => lemma_skip_scored_ahead(
                            a,
                            at2,
                            b,
                            at2 + q - p,
                            (count - 1) as nat,
                            binary,
                        ),
                        _ => {},
                    }
                } else {
                    match spec_float(a, at1) {
                        Ok((_, at2)) => lemma_skip_scored_ahead(
                            a,
                            at2,
                            b,
                            at2 + q - p,
                            (count - 1) as nat,
                            binary,
                        ),
                        _ => {},
                    }
                }
            },
            _ => {},
        }
    }
}

/// Pending entries are passed over the same in bytes that hold the same
/// ahead.
pub proof fn lemma_skip_pending_ahead(a: Seq<u8>, p: int, b: Seq<u8>, q: int, count: nat)
    requires
        same_ahead(a, p, b, q),
    ensures
        spec_skip_pending(b, q, count) == moved_pos(spec_skip_pending(a, p, count), q - p),
        spec_skip_pending(a, p, count) matches Ok(next) ==> p <= next && same_ahead(
            a,
            next,
            b,
            next + q - p,
        ),
    decreases count,
{
    if count > 0 {
        lemma_take_step(a, p, b, q, 24);
        match spec_take(a, p, 24) {
            Ok((_, at1)) => {
                lemma_length_step(a, at1, b, at1 + q - p);
                match spec_length(a, at1) {
                    Ok((_, at2)) => lemma_skip_pending_ahead(
                        a,
                        at2,
                        b,
                        at2 + q - p,
                        (count - 1) as nat,
                    ),
                    _ => {},
                }
            },
            _ => {},
        }
    }
}

/// Consumers are passed over the same in bytes that hold the same ahead.
pub proof fn lemma_skip_consumers_ahead(a: Seq<u8>, p: int, b: Seq<u8>, q: int, count: nat)
    requires
        same_ahead(a, p, b, q),
    ensures
        spec_skip_consumers(b, q, count) == moved_pos(spec_skip_consumers(a, p, count), q - p),
        spec_skip_consumers(a, p, count) matches Ok(next) ==> p <= next && same_ahead(
            a,
            next,
            b,
            next + q - p,
        ),
    decreases count,
{
    if count > 0 {
        lemma_string_step(a, p, b, q);
        match spec_string(a, p) {
            Ok((_, at1)) => {
                lemma_take_step(a, at1, b, at1 + q - p, 8);
                match spec_take(a, at1, 8) {
                    Ok((_, at2)) => {
                        lemma_length_step(a, at2, b, at2 + q - p);
                        match spec_length(a, at2) {
                            Ok((owned, at3)) => {
                                lemma_take_step(a, at3, b, at3 + q - p, 16 * owned);
                                match spec_take(a, at3, 16 * owned) {
                                    Ok((_, at4)) => lemma_skip_consumers_ahead(
                                        a,
                                        at4,
                                        b,
                                        at4 + q - p,
                                        (count - 1) as nat,
                                    ),
                                    _ => {},
                                }
                            },
                            _ => {},
                        }
                    },
                    _ => {},
                }
            },
            _ => {},
        }
    }
}

/// The members of a hash that an entry takes, with the position behind
/// them moved by `d`.
pub open spec fn moved_members(r: Result<(int, nat), RdbError>, d: int) -> Result<
    (int, nat),
    RdbError,
> {
    match r {
        Ok((next, count)) => Ok((next + d, count)),
        Err(e) => Err(e),
    }
}

/// An entry takes the same members of a hash from bytes that hold the same
/// ahead.
pub proof fn lemma_hash_members_ahead(
    a: Seq<u8>,
    p: int,
    b: Seq<u8>,
    q: int,
    n: nat,
    i: nat,
    cached: int,
)
    requires
        same_ahead(a, p, b, q),
    ensures
        spec_hash_members(b, q, n, i, cached) == moved_members(
            spec_hash_members(a, p, n, i, cached),
            q - p,
        ),
    decreases n - i,
{
    let d = q - p;
    if i < n {
        lemma_string_step(a, p, b, q);
        match spec_string(a, p) {
            Ok((_, at1)) => {
                lemma_string_step(a, at1, b, at1 + d);
                match spec_string(a, at1) {
                    Ok((_, at2)) => {
                        lemma_hash_members_ahead(
                            a,
                            at2,
                            b,
                            at2 + d,
                            n,
                            i + 1,
                            cached + (at2 - p),
                        );
                    },
                    _ => {},
                }
            },
            _ => {},
        }
    }
}

/// Consumer groups are passed over the same in bytes that hold the same
/// ahead.
pub proof fn lemma_groups_ahead(a: Seq<u8>, p: int, b: Seq<u8>, q: int, count: nat)
    requires
        same_ahead(a, p, b, q),
    ensures
        spec_skip_groups(b, q, count) == moved_pos(spec_skip_groups(a, p, count), q - p),
    decreases count,
{
    let d = q - p;
    if count > 0 {
        lemma_string_step(a, p, b, q);
        match spec_string(a, p) {
            Ok((_, at1)) => {
                lemma_length_step(a, at1, b, at1 + d);
                match spec_length(a, at1) {
                    Ok((_, at2)) => {
                        lemma_length_step(a, at2, b, at2 + d);
                        match spec_length(a, at2) {
                            Ok((_, at3)) => {
                                lemma_length_step(a, at3, b, at3 + d);
                                match spec_length(a, at3) {
                                    Ok((pending, at4)) => {
                                        lemma_skip_pending_ahead(
                                            a,
                                            at4,
                                            b,
                                            at4 + d,
                                            pending as nat,
                                        );
                                        match spec_skip_pending(a, at4, pending as nat) {
                                            Ok(at5) => {
                                                lemma_length_step(a, at5, b, at5 + d);
                                                match spec_length(a, at5) {
                                                    Ok((consumers, at6)) => {
                                                        lemma_skip_consumers_ahead(
                                                            a,
                                                            at6,
                                                            b,
                                                            at6 + d,
                                                            consumers as nat,
                                                        );
                                                        match spec_skip_consumers(
                                                            a,
                                                            at6,
                                                            consumers as nat,
                                                        ) {
                                                            Ok(at7) => lemma_groups_ahead(
                                                                a,
                                                                at7,
                                                                b,
                                                                at7 + d,
                                                                (count - 1) as nat,
                                                            ),
                                                            _ => {},
                                                        }
                                                    },
                                                    _ => {},
                                                }
                                            },
                                            _ => {},
                                        }
                                    },
                                    _ => {},
                                }
                            },
                            _ => {},
                        }
                    },
                    _ => {},
                }
            },
            _ => {},
        }
    }
}

/// A stream is passed over the same in bytes that hold the same ahead.
pub proof fn lemma_stream_ahead(a: Seq<u8>, p: int, b: Seq<u8>, q: int)
    requires
        same_ahead(a, p, b, q),
    ensures
        spec_skip_stream(b, q) == moved_pos(spec_skip_stream(a, p), q - p),
{
    let d = q - p;
    lemma_length_step(a, p, b, q);
    match spec_length(a, p) {
        Ok((packs, at1)) => {
            lemma_skip_strings_ahead(a, at1, b, at1 + d, 2 * packs as nat);
            match spec_skip_strings(a, at1, 2 * packs as nat) {
                Ok(at2) => {
                    lemma_length_step(a, at2, b, at2 + d);
                    match spec_length(a, at2) {
                        Ok((_, at3)) => {
                            lemma_length_step(a, at3, b, at3 + d);
                            match spec_length(a, at3) {
                                Ok((_, at4)) => {
                                    lemma_length_step(a, at4, b, at4 + d);
                                    match spec_length(a, at4) {
                                        Ok((_, at5)) => {
                                            lemma_length_step(a, at5, b, at5 + d);
                                            match spec_length(a, at5) {
                                                Ok((groups, at6)) => lemma_groups_ahead(
                                                    a,
                                                    at6,
                                                    b,
                                                    at6 + d,
                                                    groups as nat,
                                                ),
                                                _ => {},
                                            }
                                        },
                                        _ => {},
                                    }
                                },
                                _ => {},
                            }
                        },
                        _ => {},
                    }
                },
                _ => {},
            }
        },
        _ => {},
    }
}

/// The end of a value, moved by `d`.
pub open spec fn moved_span(r: Result<ObjectSpan, RdbError>, d: int) -> Result<
    ObjectSpan,
    RdbError,
> {
    match r {
        Ok(span) => Ok(
            ObjectSpan {
                next: span.next + d,
                remainMember: span.remainMember,
                lastReadCount: span.lastReadCount,
                totMemberCount: span.totMemberCount,
            },
        ),
        Err(e) => Err(e),
    }
}

/// The end of a value is found the same in bytes that hold the same
/// ahead.
pub proof fn lemma_object_ahead(
    a: Seq<u8>,
    p: int,
    b: Seq<u8>,
    q: int,
    t: u8,
    remain: u32,
    tot: u32,
    cached: int,
)
    requires
        same_ahead(a, p, b, q),
    ensures
        spec_object(b, q, t, remain, tot, cached) == moved_span(
            spec_object(a, p, t, remain, tot, cached),
            q - p,
        ),
{
    let d = q - p;
    lemma_string_step(a, p, b, q);
    lemma_length_step(a, p, b, q);
    match spec_length(a, p) {
        Ok((n, at1)) => {
            lemma_skip_strings_ahead(a, at1, b, at1 + d, n as nat);
            lemma_skip_scored_ahead(a, at1, b, at1 + d, n as nat, true);
            lemma_skip_scored_ahead(a, at1, b, at1 + d, n as nat, false);
            lemma_hash_members_ahead(a, at1, b, at1 + d, n as nat, 0, cached + (at1 - p));
        },
        _ => {},
    }
    lemma_hash_members_ahead(a, p, b, q, remain as nat, 0, cached);
    lemma_stream_ahead(a, p, b, q);
}

/// The value of a module is passed over the same in bytes that hold the
/// same ahead.
pub proof fn lemma_module_value_ahead(a: Seq<u8>, p: int, b: Seq<u8>, q: int)
    requires
        same_ahead(a, p, b, q),
    ensures
        spec_module_value(b, q) == moved_pos(spec_module_value(a, p), q - p),
    decreases a.len() - p,
{
    let d = q - p;
    lemma_length_step(a, p, b, q);
    match spec_length(a, p) {
        Ok((opcode, at1)) => {
            if opcode != 0 {
                if opcode == 1 || opcode == 2 {
                    lemma_length_step(a, at1, b, at1 + d);
                    match spec_length(a, at1) {
                        Ok((_, at2)) => lemma_module_value_ahead(a, at2, b, at2 + d),
                        _ => {},
                    }
                } else if opcode == 5 {
                    lemma_string_step(a, at1, b, at1 + d);
                    match spec_string(a, at1) {
                        Ok((_, at2)) => lemma_module_value_ahead(a, at2, b, at2 + d),
                        _ => {},
                    }
                } else if opcode == 3 {
                    lemma_score_step(a, at1, b, at1 + d);
                    match spec_float(a, at1) {
                        Ok((_, at2)) => lemma_module_value_ahead(a, at2, b, at2 + d),
                        _ => {},
                    }
                } else if opcode == 4 {
                    lemma_score_step(a, at1, b, at1 + d);
                    match spec_double(a, at1) {
                        Ok((_, at2)) => lemma_module_value_ahead(a, at2, b, at2 + d),
                        _ => {},
                    }
                } else {
                    lemma_module_value_ahead(a, at1, b, at1 + d);
                }
            }
        },
        _ => {},
    }
}

/// The value of a module that was passed over lies behind where it began,
/// and the bytes behind it are the same in bytes that hold the same ahead.
pub proof fn lemma_module_value_step(a: Seq<u8>, p: int, b: Seq<u8>, q: int)
    requires
        same_ahead(a, p, b, q),
    ensures
        spec_module_value(b, q) == moved_pos(spec_module_value(a, p), q - p),
        spec_module_value(a, p) matches Ok(next) ==> p < next && same_ahead(
            a,
            next,
            b,
            next + q - p,
        ),
{
    lemma_module_value_ahead(a, p, b, q);
    lemma_module_value_advances(a, p);
    match spec_module_value(a, p) {
        Ok(next) => lemma_same_ahead_later(a, p, b, q, next),
        _ => {},
    }
}

/// The end of a walk, moved by `d`.
pub open spec fn moved_scan(r: Result<ScanView, RdbError>, d: int) -> Result<ScanView, RdbError> {
    match r {
        Ok(found) => Ok(
            ScanView {
                next: found.next + d,
                db: found.db,
                ExpireAt: found.ExpireAt,
                IdleTime: found.IdleTime,
                Freq: found.Freq,
                hit: match found.hit {
                    HitView::Value { t, key, start, span } => HitView::Value {
                        t,
                        key,
                        start: start + d,
                        span: ObjectSpan {
                            next: span.next + d,
                            remainMember: span.remainMember,
                            lastReadCount: span.lastReadCount,
                            totMemberCount: span.totMemberCount,
                        },
                    },
                    other => other,
                },
            },
        ),
        Err(e) => Err(e),
    }
}

/// The walk behind an auxiliary field.
proof fn lemma_scan_aux(
    a: Seq<u8>,
    p: int,
    b: Seq<u8>,
    q: int,
    db: u32,
    expire: u64,
    idle: u32,
    freq: u8,
)
    requires
        same_ahead(a, p, b, q),
        spec_u8(a, p) == Ok::<(u8, int), RdbError>((RdbFlagAUX, p + 1)),
        spec_u8(b, q) == Ok::<(u8, int), RdbError>((RdbFlagAUX, q + 1)),
        same_ahead(a, p + 1, b, q + 1),
    ensures
        spec_scan(b, q, db, expire, idle, freq) == moved_scan(
            spec_scan(a, p, db, expire, idle, freq),
            q - p,
        ),
    decreases a.len() - p, 0int,
{
    let d = q - p;
    let at1 = p + 1;
    lemma_string_step(a, at1, b, at1 + d);
    match spec_string(a, at1) {
        Ok((key, at2)) => {
            lemma_string_step(a, at2, b, at2 + d);
            match spec_string(a, at2) {
                Ok((value, at3)) => {
                    lemma_scan_ahead(a, at3, b, at3 + d, db, expire, idle, freq);
                },
                _ => {},
            }
        },
        _ => {},
    }
}

/// The walk behind the size hints.
proof fn lemma_scan_resize(
    a: Seq<u8>,
    p: int,
    b: Seq<u8>,
    q: int,
    db: u32,
    expire: u64,
    idle: u32,
    freq: u8,
)
    requires
        same_ahead(a, p, b, q),
        spec_u8(a, p) == Ok::<(u8, int), RdbError>((rdbFlagResizeDB, p + 1)),
        spec_u8(b, q) == Ok::<(u8, int), RdbError>((rdbFlagResizeDB, q + 1)),
        same_ahead(a, p + 1, b, q + 1),
    ensures
        spec_scan(b, q, db, expire, idle, freq) == moved_scan(
            spec_scan(a, p, db, expire, idle, freq),
            q - p,
        ),
    decreases a.len() - p, 0int,
{
    let d = q - p;
    let at1 = p + 1;
    lemma_length_step(a, at1, b, at1 + d);
    match spec_length(a, at1) {
        Ok((_, at2)) => {
            lemma_length_step(a, at2, b, at2 + d);
            match spec_length(a, at2) {
                Ok((_, at3)) => {
                    lemma_scan_ahead(a, at3, b, at3 + d, db, expire, idle, freq);
                },
                _ => {},
            }
        },
        _ => {},
    }
}

/// The walk behind an expiry in milliseconds.
proof fn lemma_scan_expiry_ms(
    a: Seq<u8>,
    p: int,
    b: Seq<u8>,
    q: int,
    db: u32,
    expire: u64,
    idle: u32,
    freq: u8,
)
    requires
        same_ahead(a, p, b, q),
        spec_u8(a, p) == Ok::<(u8, int), RdbError>((rdbFlagExpiryMS, p + 1)),
        spec_u8(b, q) == Ok::<(u8, int), RdbError>((rdbFlagExpiryMS, q + 1)),
        same_ahead(a, p + 1, b, q + 1),
    ensures
        spec_scan(b, q, db, expire, idle, freq) == moved_scan(
            spec_scan(a, p, db, expire, idle, freq),
            q - p,
        ),
    decreases a.len() - p, 0int,
{
    let d = q - p;
    let at1 = p + 1;
    lemma_number_step(a, at1, b, at1 + d);
    match spec_u64(a, at1) {
        Ok((ms, at2)) => {
            lemma_scan_ahead(a, at2, b, at2 + d, db, ms, idle, freq);
        },
        _ => {},
    }
}

/// The walk behind an expiry in seconds.
proof fn lemma_scan_expiry(
    a: Seq<u8>,
    p: int,
    b: Seq<u8>,
    q: int,
    db: u32,
    expire: u64,
    idle: u32,
    freq: u8,
)
    requires
        same_ahead(a, p, b, q),
        spec_u8(a, p) == Ok::<(u8, int), RdbError>((rdbFlagExpiry, p + 1)),
        spec_u8(b, q) == Ok::<(u8, int), RdbError>((rdbFlagExpiry, q + 1)),
        same_ahead(a, p + 1, b, q + 1),
    ensures
        spec_scan(b, q, db, expire, idle, freq) == moved_scan(
            spec_scan(a, p, db, expire, idle, freq),
            q - p,
        ),
    decreases a.len() - p, 0int,
{
    let d = q - p;
    let at1 = p + 1;
    lemma_number_step(a, at1, b, at1 + d);
    match spec_u32(a, at1) {
        Ok((s, at2)) => {
            lemma_scan_ahead(a, at2, b, at2 + d, db, (s * 1000) as u64, idle, freq);
        },
        _ => {},
    }
}

/// The walk behind the selection of a database.
proof fn lemma_scan_select(
    a: Seq<u8>,
    p: int,
    b: Seq<u8>,
    q: int,
    db: u32,
    expire: u64,
    idle: u32,
    freq: u8,
)
    requires
        same_ahead(a, p, b, q),
        spec_u8(a, p) == Ok::<(u8, int), RdbError>((rdbFlagSelectDB, p + 1)),
        spec_u8(b, q) == Ok::<(u8, int), RdbError>((rdbFlagSelectDB, q + 1)),
        same_ahead(a, p + 1, b, q + 1),
    ensures
        spec_scan(b, q, db, expire, idle, freq) == moved_scan(
            spec_scan(a, p, db, expire, idle, freq),
            q - p,
        ),
    decreases a.len() - p, 0int,
{
    let d = q - p;
    let at1 = p + 1;
    lemma_length_step(a, at1, b, at1 + d);
    match spec_length(a, at1) {
        Ok((n, at2)) => {
            lemma_scan_ahead(a, at2, b, at2 + d, n, expire, idle, freq);
        },
        _ => {},
    }
}

/// The walk behind the value of a module.
proof fn lemma_scan_module(
    a: Seq<u8>,
    p: int,
    b: Seq<u8>,
    q: int,
    db: u32,
    expire: u64,
    idle: u32,
    freq: u8,
)
    requires
        same_ahead(a, p, b, q),
        spec_u8(a, p) == Ok::<(u8, int), RdbError>((rdbFlagModuleAux, p + 1)),
        spec_u8(b, q) == Ok::<(u8, int), RdbError>((rdbFlagModuleAux, q + 1)),
        same_ahead(a, p + 1, b, q + 1),
    ensures
        spec_scan(b, q, db, expire, idle, freq) == moved_scan(
            spec_scan(a, p, db, expire, idle, freq),
            q - p,
        ),
    decreases a.len() - p, 0int,
{
    let d = q - p;
    let at1 = p + 1;
    lemma_length_step(a, at1, b, at1 + d);
    match spec_length(a, at1) {
        Ok((_, at2)) => {
            lemma_module_value_step(a, at2, b, at2 + d);
            match spec_module_value(a, at2) {
                Ok(at3) => {
                    lemma_scan_ahead(a, at3, b, at3 + d, db, expire, idle, freq);
                },
                _ => {},
            }
        },
        _ => {},
    }
}

/// The walk behind an idle time.
proof fn lemma_scan_idle(
    a: Seq<u8>,
    p: int,
    b: Seq<u8>,
    q: int,
    db: u32,
    expire: u64,
    idle: u32,
    freq: u8,
)
    requires
        same_ahead(a, p, b, q),
        spec_u8(a, p) == Ok::<(u8, int), RdbError>((rdbFlagIdle, p + 1)),
        spec_u8(b, q) == Ok::<(u8, int), RdbError>((rdbFlagIdle, q + 1)),
        same_ahead(a, p + 1, b, q + 1),
    ensures
        spec_scan(b, q, db, expire, idle, freq) == moved_scan(
            spec_scan(a, p, db, expire, idle, freq),
            q - p,
        ),
    decreases a.len() - p, 0int,
{
    let d = q - p;
    let at1 = p + 1;
    lemma_length_step(a, at1, b, at1 + d);
    match spec_length(a, at1) {
        Ok((n, at2)) => {
            lemma_scan_ahead(a, at2, b, at2 + d, db, expire, n, freq);
        },
        _ => {},
    }
}

/// The walk behind an access frequency.
proof fn lemma_scan_freq(
    a: Seq<u8>,
    p: int,
    b: Seq<u8>,
    q: int,
    db: u32,
    expire: u64,
    idle: u32,
    freq: u8,
)
    requires
        same_ahead(a, p, b, q),
        spec_u8(a, p) == Ok::<(u8, int), RdbError>((rdbFlagFreq, p + 1)),
        spec_u8(b, q) == Ok::<(u8, int), RdbError>((rdbFlagFreq, q + 1)),
        same_ahead(a, p + 1, b, q + 1),
    ensures
        spec_scan(b, q, db, expire, idle, freq) == moved_scan(
            spec_scan(a, p, db, expire, idle, freq),
            q - p,
        ),
    decreases a.len() - p, 0int,
{
    let d = q - p;
    let at1 = p + 1;
    lemma_number_step(a, at1, b, at1 + d);
    match spec_u8(a, at1) {
        Ok((f, at2)) => {
            lemma_scan_ahead(a, at2, b, at2 + d, db, expire, idle, f);
        },
        _ => {},
    }
}

/// The walk that ends at a key.
proof fn lemma_scan_value(
    a: Seq<u8>,
    p: int,
    b: Seq<u8>,
    q: int,
    db: u32,
    expire: u64,
    idle: u32,
    freq: u8,
    t: u8,
)
    requires
        same_ahead(a, p, b, q),
        t < rdbFlagModuleAux,
        spec_u8(a, p) == Ok::<(u8, int), RdbError>((t, p + 1)),
        spec_u8(b, q) == Ok::<(u8, int), RdbError>((t, q + 1)),
        same_ahead(a, p + 1, b, q + 1),
    ensures
        spec_scan(b, q, db, expire, idle, freq) == moved_scan(
            spec_scan(a, p, db, expire, idle, freq),
            q - p,
        ),
    decreases a.len() - p, 0int,
{
    let d = q - p;
    let at1 = p + 1;
    lemma_string_step(a, at1, b, at1 + d);
    match spec_string(a, at1) {
        Ok((key, at2)) => {
            lemma_object_ahead(a, at2, b, at2 + d, t, 0, 0, 0);
        },
        _ => {},
    }
}

/// A walk over the opcodes ends the same in bytes that hold the same
/// ahead.
pub proof fn lemma_scan_ahead(
    a: Seq<u8>,
    p: int,
    b: Seq<u8>,
    q: int,
    db: u32,
    expire: u64,
    idle: u32,
    freq: u8,
)
    requires
        same_ahead(a, p, b, q),
    ensures
        spec_scan(b, q, db, expire, idle, freq) == moved_scan(
            spec_scan(a, p, db, expire, idle, freq),
            q - p,
        ),
    decreases a.len() - p, 1int,
{
    lemma_number_step(a, p, b, q);
    match spec_u8(a, p) {
        Err(e) => {},
        Ok((t, at1)) => {
            if t == RdbFlagAUX {
                lemma_scan_aux(a, p, b, q, db, expire, idle, freq);
            } else if t == rdbFlagResizeDB {
                lemma_scan_resize(a, p, b, q, db, expire, idle, freq);
            } else if t == rdbFlagExpiryMS {
                lemma_scan_expiry_ms(a, p, b, q, db, expire, idle, freq);
            } else if t == rdbFlagExpiry {
                lemma_scan_expiry(a, p, b, q, db, expire, idle, freq);
            } else if t == rdbFlagSelectDB {
                lemma_scan_select(a, p, b, q, db, expire, idle, freq);
            } else if t == rdbFlagEOF {
            } else if t == rdbFlagModuleAux {
                lemma_scan_module(a, p, b, q, db, expire, idle, freq);
            } else if t == rdbFlagIdle {
                lemma_scan_idle(a, p, b, q, db, expire, idle, freq);
            } else if t == rdbFlagFreq {
                lemma_scan_freq(a, p, b, q, db, expire, idle, freq);
            } else {
                lemma_scan_value(a, p, b, q, db, expire, idle, freq, t);
            }
        },
    }
}

/// What giving up the read bytes does to the bytes held: the bytes ahead
/// stay, and those given up join the bytes given up before.
pub proof fn lemma_compacted_bytes(l: LoaderView, next: int)
    requires
        l.wf(),
        l.reader.nread <= next <= l.reader.raw.len(),
    ensures
        l.compacted().wf(),
        same_ahead(l.reader.raw, l.reader.nread, l.compacted().reader.raw, 0),
        l.compacted().reader.before + l.compacted().reader.raw.subrange(
            0,
            next - l.reader.nread,
        ) == l.reader.before + l.reader.raw.subrange(0, next),
        l.compacted().reader.raw.subrange(
            next - l.reader.nread,
            l.compacted().reader.raw.len() as int,
        ) == l.reader.raw.subrange(next, l.reader.raw.len() as int),
{
    let rd = l.reader;
    let a = rd.raw;
    let p = rd.nread;
    let c = l.compacted();
    let b = c.reader.raw;
    assert(b.subrange(0, b.len() as int) =~= a.subrange(p, a.len() as int));
    assert(c.reader.before + b.subrange(0, 0) =~= rd.before + a.subrange(0, p));
    assert(c.reader.before + b.subrange(0, next - p) =~= rd.before + a.subrange(0, next));
    assert(b.subrange(next - p, b.len() as int) =~= a.subrange(next, a.len() as int));
}

/// Giving up what has been read changes nothing of the next part of a
/// hash.
proof fn lemma_next_compacted_rest(l: LoaderView, e: EntryView)
    requires
        l.wf(),
        l.reader.remainMember != 0,
    ensures
        spec_next(l.compacted(), e).result == spec_next(l, e).result,
        spec_next(l.compacted(), e).entry == spec_next(l, e).entry,
        spec_next(l.compacted(), e).loader.compacted() == spec_next(l, e).loader.compacted(),
{
    let rd = l.reader;
    let a = rd.raw;
    let p = rd.nread;
    let c = l.compacted();
    let b = c.reader.raw;
    lemma_compacted_bytes(l, p);
    lemma_object_ahead(a, p, b, 0, l.last.Type, rd.remainMember, rd.totMemberCount, 0);
    lemma_object_advances(a, p, l.last.Type, rd.remainMember, rd.totMemberCount, 0);
    match spec_object(a, p, l.last.Type, rd.remainMember, rd.totMemberCount, 0) {
        Ok(span) => {
            lemma_compacted_bytes(l, span.next);
            assert(b.subrange(0, span.next - p) =~= a.subrange(p, span.next));
            assert(spec_next(c, e).loader.compacted().reader =~= spec_next(
                l,
                e,
            ).loader.compacted().reader);
        },
        Err(err) => {},
    }
}

/// Giving up what has been read changes nothing of a walk to the next
/// entry.
#[verifier::rlimit(50)]
proof fn lemma_next_compacted_walk(l: LoaderView, e: EntryView)
    requires
        l.wf(),
        l.reader.remainMember == 0,
    ensures
        spec_next(l.compacted(), e).result == spec_next(l, e).result,
        spec_next(l.compacted(), e).entry == spec_next(l, e).entry,
        spec_next(l.compacted(), e).loader.compacted() == spec_next(l, e).loader.compacted(),
{
    let rd = l.reader;
    let a = rd.raw;
    let p = rd.nread;
    let c = l.compacted();
    let b = c.reader.raw;
    lemma_compacted_bytes(l, p);
    lemma_scan_ahead(a, p, b, 0, l.db, e.ExpireAt, e.IdleTime, e.Freq);
    lemma_scan_advances(a, p, l.db, e.ExpireAt, e.IdleTime, e.Freq);
    match spec_scan(a, p, l.db, e.ExpireAt, e.IdleTime, e.Freq) {
        Ok(found) => {
            lemma_compacted_bytes(l, found.next);
            match found.hit {
                HitView::Value { t, key, start, span } => {
                    assert(b.subrange(start - p, span.next - p) =~= a.subrange(start, span.next));
                },
                _ => {},
            }
            assert(spec_next(c, e).loader.compacted().reader =~= spec_next(
                l,
                e,
            ).loader.compacted().reader);
        },
        Err(err) => {
            assert(spec_next(c, e).loader.compacted().reader =~= spec_next(
                l,
                e,
            ).loader.compacted().reader);
        },
    }
}

/// Giving up what has been read changes nothing of what is decoded. A
/// call for the next entry returns the same and hands out the same entry
/// whether the decoder has given up the bytes that it has read or not, and
/// the decoders that the two calls leave are the same once they have given up
/// what they have read.
pub proof fn lemma_next_compacted(l: LoaderView, e: EntryView)
    requires
        l.wf(),
    ensures
        l.compacted().wf(),
        spec_next(l.compacted(), e).result == spec_next(l, e).result,
        spec_next(l.compacted(), e).entry == spec_next(l, e).entry,
        spec_next(l.compacted(), e).loader.compacted() == spec_next(l, e).loader.compacted(),
{
    lemma_compacted_bytes(l, l.reader.nread);
    if l.reader.remainMember != 0 {
        lemma_next_compacted_rest(l, e);
    } else {
        lemma_next_compacted_walk(l, e);
    }
}

} // verus!
