//! The values of a snapshot: how many bytes the value of each type takes up,
//! and where the value of an oversized hash is cut into several entries.
use crate::errors::RdbError;
use crate::wire::{
    double_at,
    float_at,
    length_at,
    lemma_wire_advances,
    spec_double,
    spec_float,
    spec_length,
    spec_string,
    spec_take,
    string_at,
    Parsed,
};
use vstd::prelude::*;

verus! {

/// The opcode before an auxiliary field: a key and a value, both strings.
pub const RdbFlagAUX: u8 = 0xfa;

/// The opcode before two hints on the sizes of the database.
pub const rdbFlagResizeDB: u8 = 0xfb;

/// The type of a string.
pub const RdbTypeString: u8 = 0;

/// The type of a list of strings.
pub const RdbTypeList: u8 = 1;

/// The type of a set of strings.
pub const RdbTypeSet: u8 = 2;

/// The type of a sorted set with scores as text.
pub const RdbTypeZSet: u8 = 3;

/// The type of a hash of strings.
pub const RdbTypeHash: u8 = 4;

/// The type of a sorted set with scores as doubles.
pub const RdbTypeZSet2: u8 = 5;

/// The type of a hash stored as a zipmap.
pub const RdbTypeHashZipmap: u8 = 9;

/// The type of a list stored as a ziplist.
pub const RdbTypeListZiplist: u8 = 10;

/// The type of a set stored as an intset.
pub const RdbTypeSetIntset: u8 = 11;

/// The type of a sorted set stored as a ziplist.
pub const RdbTypeZSetZiplist: u8 = 12;

/// The type of a hash stored as a ziplist.
pub const RdbTypeHashZiplist: u8 = 13;

/// The type of a list stored as a sequence of ziplists.
pub const RdbTypeQuicklist: u8 = 14;

/// The type of a stream.
pub const RDBTypeStreamListPacks: u8 = 15;

/// The number of collected bytes beyond which a hash is cut: 16 MiB.
pub const CHUNK_BYTES: usize = 0x100_0000;

/// Where the value of one entry ends, and what it leaves for later entries.
pub struct ObjectRead {
    /// The position behind the bytes that were read.
    pub next: usize,
    /// How many members of the hash are left for later entries.
    pub remainMember: u32,
    /// How many members were read.
    pub lastReadCount: u32,
    /// How many members the hash has in all.
    pub totMemberCount: u32,
}

/// An `ObjectRead` as a mathematical value.
pub struct ObjectSpan {
    pub next: int,
    pub remainMember: u32,
    pub lastReadCount: u32,
    pub totMemberCount: u32,
}

impl View for ObjectRead {
    type V = ObjectSpan;

    open spec fn view(&self) -> ObjectSpan {
        ObjectSpan {
            next: self.next as int,
            remainMember: self.remainMember,
            lastReadCount: self.lastReadCount,
            totMemberCount: self.totMemberCount,
        }
    }
}

/// Whether an executable position is the one that the specification gives.
pub open spec fn same_pos(r: Result<usize, RdbError>, want: Result<int, RdbError>) -> bool {
    match want {
        Ok(next) => r matches Ok(got) && got == next,
        Err(e) => r matches Err(x) && x == e,
    }
}

/// A value whose members are not counted, ending at `next`.
pub open spec fn plain_span(next: int) -> ObjectSpan {
    ObjectSpan { next, remainMember: 0, lastReadCount: 0, totMemberCount: 0 }
}

/// The position behind `count` strings that begin at `pos`.
pub open spec fn spec_skip_strings(raw: Seq<u8>, pos: int, count: nat) -> Result<int, RdbError>
    decreases count,
{
    if count == 0 {
        Ok(pos)
    } else {
        match spec_string(raw, pos) {
            Err(e) => Err(e),
            Ok((_, next)) => spec_skip_strings(raw, next, (count - 1) as nat),
        }
    }
}

/// The position behind `count` members of a sorted set that begin at `pos`:
/// each a string and a score, which is a double where `binary` is set and a
/// number as text where it is not.
pub open spec fn spec_skip_scored(raw: Seq<u8>, pos: int, count: nat, binary: bool) -> Result<
    int,
    RdbError,
>
    decreases count,
{
    if count == 0 {
        Ok(pos)
    } else {
        match spec_string(raw, pos) {
            Err(e) => Err(e),
            Ok((_, at1)) => if binary {
                match spec_double(raw, at1) {
                    Err(e) => Err(e),
                    Ok((_, at2)) => spec_skip_scored(raw, at2, (count - 1) as nat, binary),
                }
            } else {
                match spec_float(raw, at1) {
                    Err(e) => Err(e),
                    Ok((_, at2)) => spec_skip_scored(raw, at2, (count - 1) as nat, binary),
                }
            },
        }
    }
}

/// The members of a hash that one entry takes, from member `i` of `n` at
/// `pos`, when `cached` bytes of the entry have been collected so far: the
/// position behind them and the number of the member behind them. Reading
/// stops behind the last member, or behind any other member with which the
/// collected bytes exceed the chunk size.
pub open spec fn spec_hash_members(raw: Seq<u8>, pos: int, n: nat, i: nat, cached: int) -> Result<
    (int, nat),
    RdbError,
>
    decreases n - i,
{
    if i >= n {
        Ok((pos, i))
    } else {
        match spec_string(raw, pos) {
            Err(e) => Err(e),
            Ok((_, at1)) => match spec_string(raw, at1) {
                Err(e) => Err(e),
                Ok((_, at2)) => if cached + (at2 - pos) > CHUNK_BYTES && i != n - 1 {
                    Ok((at2, i + 1))
                } else {
                    spec_hash_members(raw, at2, n, i + 1, cached + (at2 - pos))
                },
            },
        }
    }
}

/// The position behind `count` pending entries of a consumer group that begin
/// at `pos`: each an identifier of 16 bytes, a time of 8 bytes and a count.
pub open spec fn spec_skip_pending(raw: Seq<u8>, pos: int, count: nat) -> Result<int, RdbError>
    decreases count,
{
    if count == 0 {
        Ok(pos)
    } else {
        match spec_take(raw, pos, 24) {
            Err(e) => Err(e),
            Ok((_, at1)) => match spec_length(raw, at1) {
                Err(e) => Err(e),
                Ok((_, at2)) => spec_skip_pending(raw, at2, (count - 1) as nat),
            },
        }
    }
}

/// The position behind `count` consumers that begin at `pos`: each a name, a
/// time of 8 bytes, and a counted list of identifiers of 16 bytes.
pub open spec fn spec_skip_consumers(raw: Seq<u8>, pos: int, count: nat) -> Result<int, RdbError>
    decreases count,
{
    if count == 0 {
        Ok(pos)
    } else {
        match spec_string(raw, pos) {
            Err(e) => Err(e),
            Ok((_, at1)) => match spec_take(raw, at1, 8) {
                Err(e) => Err(e),
                Ok((_, at2)) => match spec_length(raw, at2) {
                    Err(e) => Err(e),
                    Ok((owned, at3)) => match spec_take(raw, at3, 16 * owned) {
                        Err(e) => Err(e),
                        Ok((_, at4)) => spec_skip_consumers(raw, at4, (count - 1) as nat),
                    },
                },
            },
        }
    }
}

/// The position behind `count` consumer groups that begin at `pos`: each a
/// name, the two halves of an identifier, a counted list of pending entries
/// and a counted list of consumers.
pub open spec fn spec_skip_groups(raw: Seq<u8>, pos: int, count: nat) -> Result<int, RdbError>
    decreases count,
{
    if count == 0 {
        Ok(pos)
    } else {
        match spec_string(raw, pos) {
            Err(e) => Err(e),
            Ok((_, at1)) => match spec_length(raw, at1) {
                Err(e) => Err(e),
                Ok((_, at2)) => match spec_length(raw, at2) {
                    Err(e) => Err(e),
                    Ok((_, at3)) => match spec_length(raw, at3) {
                        Err(e) => Err(e),
                        Ok((pending, at4)) => match spec_skip_pending(raw, at4, pending as nat) {
                            Err(e) => Err(e),
                            Ok(at5) => match spec_length(raw, at5) {
                                Err(e) => Err(e),
                                Ok((consumers, at6)) => match spec_skip_consumers(
                                    raw,
                                    at6,
                                    consumers as nat,
                                ) {
                                    Err(e) => Err(e),
                                    Ok(at7) => spec_skip_groups(raw, at7, (count - 1) as nat),
                                },
                            },
                        },
                    },
                },
            },
        }
    }
}

/// The position behind the stream that begins at `pos`: a counted list of
/// pairs of strings, three numbers, and a counted list of consumer groups.
pub open spec fn spec_skip_stream(raw: Seq<u8>, pos: int) -> Result<int, RdbError> {
    match spec_length(raw, pos) {
        Err(e) => Err(e),
        Ok((packs, at1)) => match spec_skip_strings(raw, at1, 2 * packs as nat) {
            Err(e) => Err(e),
            Ok(at2) => match spec_length(raw, at2) {
                Err(e) => Err(e),
                Ok((_, at3)) => match spec_length(raw, at3) {
                    Err(e) => Err(e),
                    Ok((_, at4)) => match spec_length(raw, at4) {
                        Err(e) => Err(e),
                        Ok((_, at5)) => match spec_length(raw, at5) {
                            Err(e) => Err(e),
                            Ok((groups, at6)) => spec_skip_groups(raw, at6, groups as nat),
                        },
                    },
                },
            },
        }
    }
}

/// Whether a value of type `t` is one string.
pub open spec fn is_string_type(t: u8) -> bool {
    t == RdbFlagAUX || t == rdbFlagResizeDB || t == RdbTypeHashZipmap || t == RdbTypeListZiplist
        || t == RdbTypeSetIntset || t == RdbTypeZSetZiplist || t == RdbTypeHashZiplist || t
        == RdbTypeString
}

/// Whether a value of type `t` is a counted list of strings.
pub open spec fn is_list_type(t: u8) -> bool {
    t == RdbTypeList || t == RdbTypeSet || t == RdbTypeQuicklist
}

/// Where the value of type `t` that begins at `pos` ends for this entry.
/// `remain` is the number of members of a hash that an earlier entry left,
/// `tot` the size of that hash, and `cached` the number of bytes collected
/// before `pos`. Only a hash counts members and may end before its last one.
pub open spec fn spec_object(raw: Seq<u8>, pos: int, t: u8, remain: u32, tot: u32, cached: int)
    -> Result<ObjectSpan, RdbError> {
    if is_string_type(t) {
        match spec_string(raw, pos) {
            Err(e) => Err(e),
            Ok((_, next)) => Ok(plain_span(next)),
        }
    } else if is_list_type(t) {
        match spec_length(raw, pos) {
            Err(e) => Err(e),
            Ok((n, at1)) => match spec_skip_strings(raw, at1, n as nat) {
                Err(e) => Err(e),
                Ok(next) => Ok(plain_span(next)),
            },
        }
    } else if t == RdbTypeZSet || t == RdbTypeZSet2 {
        match spec_length(raw, pos) {
            Err(e) => Err(e),
            Ok((n, at1)) => match spec_skip_scored(raw, at1, n as nat, t == RdbTypeZSet2) {
                Err(e) => Err(e),
                Ok(next) => Ok(plain_span(next)),
            },
        }
    } else if t == RdbTypeHash {
        if remain != 0 {
            spec_hash_span(raw, pos, remain, tot, cached)
        } else {
            match spec_length(raw, pos) {
                Err(e) => Err(e),
                Ok((n, at1)) => spec_hash_span(raw, at1, n, n, cached + (at1 - pos)),
            }
        }
    } else if t == RDBTypeStreamListPacks {
        match spec_skip_stream(raw, pos) {
            Err(e) => Err(e),
            Ok(next) => Ok(plain_span(next)),
        }
    } else {
        Err(RdbError::UnknownObjectType)
    }
}

/// Where an entry ends that takes members of a hash of `tot` members of which
/// `n` begin at `pos`.
pub open spec fn spec_hash_span(raw: Seq<u8>, pos: int, n: u32, tot: u32, cached: int) -> Result<
    ObjectSpan,
    RdbError,
> {
    match spec_hash_members(raw, pos, n as nat, 0, cached) {
        Err(e) => Err(e),
        Ok((next, count)) => Ok(
            ObjectSpan {
                next,
                remainMember: (n - count) as u32,
                lastReadCount: count as u32,
                totMemberCount: tot,
            },
        ),
    }
}

/// Skipped values lie within the bytes, behind where they began.
pub proof fn lemma_skip_advances(raw: Seq<u8>, pos: int, count: nat, binary: bool)
    requires
        0 <= pos <= raw.len(),
    ensures
        spec_skip_strings(raw, pos, count) matches Ok(next) ==> pos <= next <= raw.len(),
        spec_skip_scored(raw, pos, count, binary) matches Ok(next) ==> pos <= next <= raw.len(),
        spec_skip_pending(raw, pos, count) matches Ok(next) ==> pos <= next <= raw.len(),
        spec_skip_consumers(raw, pos, count) matches Ok(next) ==> pos <= next <= raw.len(),
    decreases count,
{
    if count > 0 {
        lemma_wire_advances(raw, pos);
        match spec_string(raw, pos) {
            Ok((_, at1)) => {
                lemma_skip_advances(raw, at1, (count - 1) as nat, binary);
                lemma_wire_advances(raw, at1);
                match spec_float(raw, at1) {
                    Ok((_, at2)) => {
                        lemma_skip_advances(raw, at2, (count - 1) as nat, binary);
                    },
                    _ => {},
                }
                match spec_double(raw, at1) {
                    Ok((_, at2)) => {
                        lemma_skip_advances(raw, at2, (count - 1) as nat, binary);
                    },
                    _ => {},
                }
                match spec_take(raw, at1, 8) {
                    Ok((_, at2)) => {
                        lemma_wire_advances(raw, at2);
                        match spec_length(raw, at2) {
                            Ok((owned, at3)) => {
                                match spec_take(raw, at3, 16 * owned) {
                                    Ok((_, at4)) => {
                                        lemma_skip_advances(raw, at4, (count - 1) as nat, binary);
                                    },
                                    _ => {},
                                }
                            },
                            _ => {},
                        }
                    },
                    _ => {},
                }
            },
            _ => {},
        }
        match spec_take(raw, pos, 24) {
            Ok((_, at1)) => {
                lemma_wire_advances(raw, at1);
                match spec_length(raw, at1) {
                    Ok((_, at2)) => {
                        lemma_skip_advances(raw, at2, (count - 1) as nat, binary);
                    },
                    _ => {},
                }
            },
            _ => {},
        }
    }
}

/// Skipped consumer groups lie within the bytes, behind where they began.
pub proof fn lemma_skip_groups_advances(raw: Seq<u8>, pos: int, count: nat)
    requires
        0 <= pos <= raw.len(),
    ensures
        spec_skip_groups(raw, pos, count) matches Ok(next) ==> pos <= next <= raw.len(),
    decreases count,
{
    if count > 0 {
        lemma_wire_advances(raw, pos);
        match spec_string(raw, pos) {
            Ok((_, at1)) => {
                lemma_wire_advances(raw, at1);
                match spec_length(raw, at1) {
                    Ok((_, at2)) => {
                        lemma_wire_advances(raw, at2);
                        match spec_length(raw, at2) {
                            Ok((_, at3)) => {
                                lemma_wire_advances(raw, at3);
                                match spec_length(raw, at3) {
                                    Ok((pending, at4)) => {
                                        lemma_skip_advances(raw, at4, pending as nat, false);
                                        match spec_skip_pending(raw, at4, pending as nat) {
                                            Ok(at5) => {
                                                lemma_wire_advances(raw, at5);
                                                match spec_length(raw, at5) {
                                                    Ok((consumers, at6)) => {
                                                        lemma_skip_advances(
                                                            raw,
                                                            at6,
                                                            consumers as nat,
                                                            false,
                                                        );
                                                        match spec_skip_consumers(
                                                            raw,
                                                            at6,
                                                            consumers as nat,
                                                        ) {
                                                            Ok(at7) => {
                                                                lemma_skip_groups_advances(
                                                                    raw,
                                                                    at7,
                                                                    (count - 1) as nat,
                                                                );
                                                            },
                                                            _ => {},
                                                        }
                                                    },
                                                    _ => {},
                                                }
                                            },
                                            _ => {},
                                        }
                                    },
                                    _ => {},
                                }
                            },
                            _ => {},
                        }
                    },
                    _ => {},
                }
            },
            _ => {},
        }
    }
}

/// A skipped stream lies within the bytes and takes up at least one.
pub proof fn lemma_skip_stream_advances(raw: Seq<u8>, pos: int)
    requires
        0 <= pos <= raw.len(),
    ensures
        spec_skip_stream(raw, pos) matches Ok(next) ==> pos < next <= raw.len(),
{
    lemma_wire_advances(raw, pos);
    match spec_length(raw, pos) {
        Ok((packs, at1)) => {
            lemma_skip_advances(raw, at1, 2 * packs as nat, false);
            match spec_skip_strings(raw, at1, 2 * packs as nat) {
                Ok(at2) => {
                    lemma_wire_advances(raw, at2);
                    match spec_length(raw, at2) {
                        Ok((_, at3)) => {
                            lemma_wire_advances(raw, at3);
                            match spec_length(raw, at3) {
                                Ok((_, at4)) => {
                                    lemma_wire_advances(raw, at4);
                                    match spec_length(raw, at4) {
                                        Ok((_, at5)) => {
                                            lemma_wire_advances(raw, at5);
                                            match spec_length(raw, at5) {
                                                Ok((groups, at6)) => {
                                                    lemma_skip_groups_advances(
                                                        raw,
                                                        at6,
                                                        groups as nat,
                                                    );
                                                },
                                                _ => {},
                                            }
                                        },
                                        _ => {},
                                    }
                                },
                                _ => {},
                            }
                        },
                        _ => {},
                    }
                },
                _ => {},
            }
        },
        _ => {},
    }
}

/// The part of a value that an entry takes lies within the bytes, behind
/// where it began. Only a hash leaves members for later entries, and an entry
/// that continues a hash takes at least one byte.
pub proof fn lemma_object_advances(
    raw: Seq<u8>,
    pos: int,
    t: u8,
    remain: u32,
    tot: u32,
    cached: int,
)
    requires
        0 <= pos <= raw.len(),
    ensures
        spec_object(raw, pos, t, remain, tot, cached) matches Ok(span) ==> pos <= span.next
            <= raw.len() && (span.remainMember != 0 ==> t == RdbTypeHash) && (t == RdbTypeHash
            && remain != 0 ==> pos < span.next),
{
    lemma_wire_advances(raw, pos);
    if is_string_type(t) {
    } else if is_list_type(t) {
        match spec_length(raw, pos) {
            Ok((n, at1)) => lemma_skip_advances(raw, at1, n as nat, false),
            _ => {},
        }
    } else if t == RdbTypeZSet || t == RdbTypeZSet2 {
        match spec_length(raw, pos) {
            Ok((n, at1)) => lemma_skip_advances(raw, at1, n as nat, t == RdbTypeZSet2),
            _ => {},
        }
    } else if t == RdbTypeHash {
        if remain != 0 {
            lemma_hash_members_advance(raw, pos, remain as nat, 0, cached);
        } else {
            match spec_length(raw, pos) {
                Ok((n, at1)) => lemma_hash_members_advance(
                    raw,
                    at1,
                    n as nat,
                    0,
                    cached + (at1 - pos),
                ),
                _ => {},
            }
        }
    } else if t == RDBTypeStreamListPacks {
        lemma_skip_stream_advances(raw, pos);
    }
}

/// The members of a hash that an entry takes lie within the bytes, and are
/// at least one where any are left.
pub proof fn lemma_hash_members_advance(raw: Seq<u8>, pos: int, n: nat, i: nat, cached: int)
    requires
        0 <= pos <= raw.len(),
        i <= n,
    ensures
        spec_hash_members(raw, pos, n, i, cached) matches Ok((next, count)) ==> pos <= next
            <= raw.len() && i <= count <= n && (i < n ==> i < count && pos < next),
    decreases n - i,
{
    if i < n {
        lemma_wire_advances(raw, pos);
        match spec_string(raw, pos) {
            Ok((_, at1)) => {
                lemma_wire_advances(raw, at1);
                match spec_string(raw, at1) {
                    Ok((_, at2)) => {
                        lemma_hash_members_advance(raw, at2, n, i + 1, cached + (at2 - pos));
                    },
                    _ => {},
                }
            },
            _ => {},
        }
    }
}

/// Passes over `count` strings.
pub fn skip_strings_at(raw: &Vec<u8>, pos: usize, count: u64) -> (r: Result<usize, RdbError>)
    requires
        pos <= raw.len(),
    ensures
        same_pos(r, spec_skip_strings(raw@, pos as int, count as nat)),
        r matches Ok(next) ==> pos <= next <= raw.len(),
{
    let ghost whole = spec_skip_strings(raw@, pos as int, count as nat);
    let mut at: usize = pos;
    let mut i: u64 = 0;
    while i < count
        invariant
            i <= count,
            pos <= at <= raw.len(),
            whole == spec_skip_strings(raw@, pos as int, count as nat),
            whole == spec_skip_strings(raw@, at as int, (count - i) as nat),
        decreases count - i,
    {
        let (_, next) = string_at(raw, at)?;
        at = next;
        i = i + 1;
    }
    Ok(at)
}

/// Passes over `count` members of a sorted set.
pub fn skip_scored_at(raw: &Vec<u8>, pos: usize, count: u32, binary: bool) -> (r: Result<
    usize,
    RdbError,
>)
    requires
        pos <= raw.len(),
    ensures
        same_pos(r, spec_skip_scored(raw@, pos as int, count as nat, binary)),
        r matches Ok(next) ==> pos <= next <= raw.len(),
{
    let ghost whole = spec_skip_scored(raw@, pos as int, count as nat, binary);
    let mut at: usize = pos;
    let mut i: u32 = 0;
    while i < count
        invariant
            i <= count,
            pos <= at <= raw.len(),
            whole == spec_skip_scored(raw@, pos as int, count as nat, binary),
            whole == spec_skip_scored(raw@, at as int, (count - i) as nat, binary),
        decreases count - i,
    {
        let (_, at1) = string_at(raw, at)?;
        if binary {
            let (_, at2) = double_at(raw, at1)?;
            at = at2;
        } else {
            let (_, at2) = float_at(raw, at1)?;
            at = at2;
        }
        i = i + 1;
    }
    Ok(at)
}

/// Passes over `count` pending entries of a consumer group.
pub fn skip_pending_at(raw: &Vec<u8>, pos: usize, count: u32) -> (r: Result<usize, RdbError>)
    requires
        pos <= raw.len(),
    ensures
        same_pos(r, spec_skip_pending(raw@, pos as int, count as nat)),
        r matches Ok(next) ==> pos <= next <= raw.len(),
{
    let ghost whole = spec_skip_pending(raw@, pos as int, count as nat);
    let mut at: usize = pos;
    let mut i: u32 = 0;
    while i < count
        invariant
            i <= count,
            pos <= at <= raw.len(),
            whole == spec_skip_pending(raw@, pos as int, count as nat),
            whole == spec_skip_pending(raw@, at as int, (count - i) as nat),
        decreases count - i,
    {
        if at > raw.len() || 24 > raw.len() - at {
            return Err(RdbError::Io);
        }
        let (_, at2) = length_at(raw, at + 24)?;
        at = at2;
        i = i + 1;
    }
    Ok(at)
}

/// Passes over `count` consumers of a consumer group.
pub fn skip_consumers_at(raw: &Vec<u8>, pos: usize, count: u32) -> (r: Result<usize, RdbError>)
    requires
        pos <= raw.len(),
    ensures
        same_pos(r, spec_skip_consumers(raw@, pos as int, count as nat)),
        r matches Ok(next) ==> pos <= next <= raw.len(),
{
    let ghost whole = spec_skip_consumers(raw@, pos as int, count as nat);
    let mut at: usize = pos;
    let mut i: u32 = 0;
    while i < count
        invariant
            i <= count,
            pos <= at <= raw.len(),
            whole == spec_skip_consumers(raw@, pos as int, count as nat),
            whole == spec_skip_consumers(raw@, at as int, (count - i) as nat),
        decreases count - i,
    {
        proof {
            lemma_wire_advances(raw@, at as int);
        }
        let (_, at1) = string_at(raw, at)?;
        if 8 > raw.len() - at1 {
            return Err(RdbError::Io);
        }
        proof {
            lemma_wire_advances(raw@, at1 + 8);
        }
        let (owned, at3) = length_at(raw, at1 + 8)?;
        let width: u64 = 16 * owned as u64;
        if width > (raw.len() - at3) as u64 {
            return Err(RdbError::Io);
        }
        at = at3 + width as usize;
        i = i + 1;
    }
    Ok(at)
}

/// Passes over `count` consumer groups.
pub fn skip_groups_at(raw: &Vec<u8>, pos: usize, count: u32) -> (r: Result<usize, RdbError>)
    requires
        pos <= raw.len(),
    ensures
        same_pos(r, spec_skip_groups(raw@, pos as int, count as nat)),
        r matches Ok(next) ==> pos <= next <= raw.len(),
{
    let ghost whole = spec_skip_groups(raw@, pos as int, count as nat);
    let mut at: usize = pos;
    let mut i: u32 = 0;
    while i < count
        invariant
            i <= count,
            pos <= at <= raw.len(),
            whole == spec_skip_groups(raw@, pos as int, count as nat),
            whole == spec_skip_groups(raw@, at as int, (count - i) as nat),
        decreases count - i,
    {
        let (_, at1) = string_at(raw, at)?;
        let (_, at2) = length_at(raw, at1)?;
        let (_, at3) = length_at(raw, at2)?;
        let (pending, at4) = length_at(raw, at3)?;
        let at5: usize = skip_pending_at(raw, at4, pending)?;
        let (consumers, at6) = length_at(raw, at5)?;
        let at7: usize = skip_consumers_at(raw, at6, consumers)?;
        at = at7;
        i = i + 1;
    }
    Ok(at)
}

/// Passes over a stream.
pub fn skip_stream_at(raw: &Vec<u8>, pos: usize) -> (r: Result<usize, RdbError>)
    requires
        pos <= raw.len(),
    ensures
        same_pos(r, spec_skip_stream(raw@, pos as int)),
        r matches Ok(next) ==> pos <= next <= raw.len(),
{
    let (packs, at1) = length_at(raw, pos)?;
    let at2: usize = skip_strings_at(raw, at1, 2 * packs as u64)?;
    let (_, at3) = length_at(raw, at2)?;
    let (_, at4) = length_at(raw, at3)?;
    let (_, at5) = length_at(raw, at4)?;
    let (groups, at6) = length_at(raw, at5)?;
    skip_groups_at(raw, at6, groups)
}

/// Reads the members of a hash that one entry takes.
pub fn hash_span_at(raw: &Vec<u8>, pos: usize, n: u32, tot: u32, cached: usize) -> (r: Result<
    ObjectRead,
    RdbError,
>)
    requires
        pos <= raw.len(),
        cached + (raw.len() - pos) <= usize::MAX,
    ensures
        match spec_hash_span(raw@, pos as int, n, tot, cached as int) {
            Ok(span) => r matches Ok(got) && got@ == span,
            Err(e) => r matches Err(x) && x == e,
        },
        r matches Ok(got) ==> pos <= got.next <= raw.len(),
{
    let ghost whole = spec_hash_members(raw@, pos as int, n as nat, 0, cached as int);
    let mut at: usize = pos;
    let mut i: u32 = 0;
    while i < n
        invariant
            i <= n,
            pos <= at <= raw.len(),
            cached + (raw.len() - pos) <= usize::MAX,
            whole == spec_hash_members(raw@, pos as int, n as nat, 0, cached as int),
            whole == spec_hash_members(raw@, at as int, n as nat, i as nat, cached + (at - pos)),
        decreases n - i,
    {
        proof {
            lemma_wire_advances(raw@, at as int);
        }
        let (_, at1) = string_at(raw, at)?;
        proof {
            lemma_wire_advances(raw@, at1 as int);
        }
        let (_, at2) = string_at(raw, at1)?;
        let over: bool = cached + (at2 - pos) > CHUNK_BYTES;
        at = at2;
        i = i + 1;
        if over && i != n {
            return Ok(
                ObjectRead {
                    next: at,
                    remainMember: n - i,
                    lastReadCount: i,
                    totMemberCount: tot,
                },
            );
        }
    }
    Ok(ObjectRead { next: at, remainMember: 0, lastReadCount: i, totMemberCount: tot })
}

/// Finds where the value of type `t` that begins at `pos` ends for this
/// entry.
pub fn object_at(raw: &Vec<u8>, pos: usize, t: u8, remain: u32, tot: u32, cached: usize) -> (r:
    Result<ObjectRead, RdbError>)
    requires
        pos <= raw.len(),
        cached + (raw.len() - pos) <= usize::MAX,
    ensures
        match spec_object(raw@, pos as int, t, remain, tot, cached as int) {
            Ok(span) => r matches Ok(got) && got@ == span,
            Err(e) => r matches Err(x) && x == e,
        },
        r matches Ok(got) ==> pos <= got.next <= raw.len(),
        r matches Ok(got) ==> (got.remainMember != 0 ==> t == RdbTypeHash),
{
    if t == RdbFlagAUX || t == rdbFlagResizeDB || t == RdbTypeHashZipmap || t
        == RdbTypeListZiplist || t == RdbTypeSetIntset || t == RdbTypeZSetZiplist || t
        == RdbTypeHashZiplist || t == RdbTypeString {
        let (_, next) = string_at(raw, pos)?;
        Ok(ObjectRead { next, remainMember: 0, lastReadCount: 0, totMemberCount: 0 })
    } else if t == RdbTypeList || t == RdbTypeSet || t == RdbTypeQuicklist {
        let (n, at1) = length_at(raw, pos)?;
        let next: usize = skip_strings_at(raw, at1, n as u64)?;
        Ok(ObjectRead { next, remainMember: 0, lastReadCount: 0, totMemberCount: 0 })
    } else if t == RdbTypeZSet || t == RdbTypeZSet2 {
        let (n, at1) = length_at(raw, pos)?;
        let next: usize = skip_scored_at(raw, at1, n, t == RdbTypeZSet2)?;
        Ok(ObjectRead { next, remainMember: 0, lastReadCount: 0, totMemberCount: 0 })
    } else if t == RdbTypeHash {
        if remain != 0 {
            hash_span_at(raw, pos, remain, tot, cached)
        } else {
            proof {
                lemma_wire_advances(raw@, pos as int);
            }
            let (n, at1) = length_at(raw, pos)?;
            hash_span_at(raw, at1, n, n, cached + (at1 - pos))
        }
    } else if t == RDBTypeStreamListPacks {
        let next: usize = skip_stream_at(raw, pos)?;
        Ok(ObjectRead { next, remainMember: 0, lastReadCount: 0, totMemberCount: 0 })
    } else {
        Err(RdbError::UnknownObjectType)
    }
}

} // verus!
