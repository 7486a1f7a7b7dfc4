//! The replay of a snapshot: every entry becomes the commands that rebuild
//! its key on the destination.
use crate::cmd::{
    blob,
    bytes_are,
    cmds_view,
    copy_bytes,
    join_cmds,
    lemma_cmds_view_empty,
    lemma_cmds_view_push,
    number,
    one_cmd,
    text,
    ArgView,
    Cmd,
};
use crate::errors::RdbError;
use crate::loader::{
    after_footer,
    blank_entry,
    lemma_next_advances,
    spec_footer,
    spec_next,
    BinEntry,
    EntryView,
    Loader,
    LoaderView,
};
use crate::members::{
    intset_members,
    items_at,
    items_view,
    quicklist_members,
    spec_intset_members,
    spec_items,
    spec_quicklist_members,
    spec_ziplist_members,
    spec_zipmap_members,
    ziplist_members,
    zipmap_members,
    ItemKind,
};
use crate::object::{
    RDBTypeStreamListPacks,
    RdbFlagAUX,
    RdbTypeHash,
    RdbTypeHashZiplist,
    RdbTypeHashZipmap,
    RdbTypeList,
    RdbTypeListZiplist,
    RdbTypeQuicklist,
    RdbTypeSet,
    RdbTypeSetIntset,
    RdbTypeString,
    RdbTypeZSet,
    RdbTypeZSet2,
    RdbTypeZSetZiplist,
};
use crate::wire::{
    double_at,
    float_at,
    length_at,
    spec_double,
    spec_float,
    spec_length,
    spec_string,
    spec_u8,
    string_at,
    u8_at,
};
use vstd::prelude::*;
use vstd::string::*;

verus! {

/// The size of a dump from which on a key is rebuilt member by member:
/// 10 MiB.
pub const BIG_VALUE_BYTES: usize = 0xa0_0000;

/// A list of commands, or the reason why there is none.
pub type Commands = Result<Seq<Seq<ArgView>>, RdbError>;

/// Whether an executable list of commands is what the specification gives.
pub open spec fn same_cmds(r: Result<Vec<Cmd>, RdbError>, want: Commands) -> bool {
    match want {
        Ok(cmds) => r matches Ok(got) && cmds_view(got@) == cmds,
        Err(e) => r matches Err(x) && x == e,
    }
}

/// One command per member: the name, the key, the member.
pub open spec fn spec_singles(name: &str, key: Seq<u8>, items: Seq<Seq<u8>>) -> Seq<Seq<ArgView>> {
    Seq::new(items.len(), |i: int| seq![text(name), blob(key), blob(items[i])])
}

/// One command per two members: the name, the key, and the two members, in
/// their order or, where `swap` is set, the second before the first.
pub open spec fn spec_pairs(name: &str, key: Seq<u8>, items: Seq<Seq<u8>>, swap: bool) -> Seq<
    Seq<ArgView>,
> {
    Seq::new(
        (items.len() / 2) as nat,
        |i: int|
            if swap {
                seq![text(name), blob(key), blob(items[2 * i + 1]), blob(items[2 * i])]
            } else {
                seq![text(name), blob(key), blob(items[2 * i]), blob(items[2 * i + 1])]
            },
    )
}

/// One `ZADD` per member of the `count` members of a sorted set that begin at
/// `pos`: the key, the score and the member. A score is a double where
/// `binary` is set and a number as text where it is not.
pub open spec fn spec_scored_commands(
    raw: Seq<u8>,
    pos: int,
    key: Seq<u8>,
    count: nat,
    binary: bool,
) -> Commands
    decreases count,
{
    if count == 0 {
        Ok(Seq::empty())
    } else {
        match spec_string(raw, pos) {
            Err(e) => Err(e),
            Ok((member, at1)) => {
                let score: Result<(ArgView, int), RdbError> = if binary {
                    match spec_double(raw, at1) {
                        Err(e) => Err(e),
                        Ok((bits, at2)) => Ok((ArgView::Double(bits), at2)),
                    }
                } else {
                    match spec_float(raw, at1) {
                        Err(e) => Err(e),
                        Ok((t, at2)) => Ok((blob(t), at2)),
                    }
                };
                match score {
                    Err(e) => Err(e),
                    Ok((s, at2)) => match spec_scored_commands(
                        raw,
                        at2,
                        key,
                        (count - 1) as nat,
                        binary,
                    ) {
                        Err(e) => Err(e),
                        Ok(rest) => Ok(seq![seq![text("ZADD"), blob(key), s, blob(member)]] + rest),
                    },
                }
            },
        }
    }
}

/// Whether a value of type `t` is stored as one string: the packed
/// encodings and the plain string.
pub open spec fn is_packed_type(t: u8) -> bool {
    t == RdbTypeHashZiplist || t == RdbTypeZSetZiplist || t == RdbTypeListZiplist || t
        == RdbTypeSetIntset || t == RdbTypeHashZipmap || t == RdbTypeString
}

/// The commands for a value of type `t` that is stored as one string at
/// `p`. The entries of a ziplist are the fields and values of a hash, the
/// members and scores of a sorted set, or the elements of a list; the items
/// of a zipmap are the fields and values of a hash; the integers of an intset
/// are the members of a set.
pub open spec fn spec_packed_commands(v: Seq<u8>, p: int, t: u8, key: Seq<u8>) -> Commands {
    match spec_string(v, p) {
        Err(err) => Err(err),
        Ok((inner, _)) => {
            if t == RdbTypeHashZiplist {
                match spec_ziplist_members(inner, true) {
                    Err(err) => Err(err),
                    Ok(items) => Ok(spec_pairs("HSET", key, items, false)),
                }
            } else if t == RdbTypeZSetZiplist {
                match spec_ziplist_members(inner, true) {
                    Err(err) => Err(err),
                    Ok(items) => Ok(spec_pairs("ZADD", key, items, true)),
                }
            } else if t == RdbTypeListZiplist {
                match spec_ziplist_members(inner, false) {
                    Err(err) => Err(err),
                    Ok(items) => Ok(spec_singles("RPUSH", key, items)),
                }
            } else if t == RdbTypeSetIntset {
                match spec_intset_members(inner) {
                    Err(err) => Err(err),
                    Ok(items) => Ok(spec_singles("SADD", key, items)),
                }
            } else if t == RdbTypeHashZipmap {
                match spec_zipmap_members(inner) {
                    Err(err) => Err(err),
                    Ok(items) => Ok(spec_pairs("HSET", key, items, false)),
                }
            } else {
                Ok(seq![seq![text("SET"), blob(key), blob(inner)]])
            }
        },
    }
}

/// The commands for the fields of a hash that begin at `p` in the dump of
/// `e`. Where the entry says that the value begins with the number of its
/// fields, that number is read, and it counts unless the entry is a part of
/// an oversized hash and counts its own fields.
pub open spec fn spec_hash_commands(e: EntryView, p: int) -> Commands {
    let counted: Result<(u32, int), RdbError> = if e.NeedReadLen == 1 {
        match spec_length(e.Value, p) {
            Err(err) => Err(err),
            Ok((n, at1)) => Ok(
                (
                    if e.RealMemberCount != 0 {
                        e.RealMemberCount
                    } else {
                        n
                    },
                    at1,
                ),
            ),
        }
    } else {
        Ok((e.RealMemberCount, p))
    };
    match counted {
        Err(err) => Err(err),
        Ok((n, at1)) => match spec_items(e.Value, at1, ItemKind::Str, 0, (2 * n) as nat) {
            Err(err) => Err(err),
            Ok((items, _)) => Ok(spec_pairs("HSET", e.Key, items, false)),
        },
    }
}

/// The commands that rebuild a key member by member from the dump in the
/// entry `e`. The first byte of the dump is the type of the value: a hash
/// becomes one `HSET` per field, a set one `SADD` per member, a sorted set
/// one `ZADD` per member, a list one `RPUSH` per element, a string one `SET`.
pub open spec fn spec_big_commands(e: EntryView) -> Commands {
    let v = e.Value;
    let key = e.Key;
    match spec_u8(v, 0) {
        Err(err) => Err(err),
        Ok((t, p)) => {
            if is_packed_type(t) {
                spec_packed_commands(v, p, t, key)
            } else if t == RdbTypeList || t == RdbTypeSet {
                match spec_length(v, p) {
                    Err(err) => Err(err),
                    Ok((n, at1)) => match spec_items(v, at1, ItemKind::Str, 0, n as nat) {
                        Err(err) => Err(err),
                        Ok((items, _)) => if t == RdbTypeList {
                            Ok(spec_singles("RPUSH", key, items))
                        } else {
                            Ok(spec_singles("SADD", key, items))
                        },
                    },
                }
            } else if t == RdbTypeZSet || t == RdbTypeZSet2 {
                match spec_length(v, p) {
                    Err(err) => Err(err),
                    Ok((n, at1)) => spec_scored_commands(v, at1, key, n as nat, t == RdbTypeZSet2),
                }
            } else if t == RdbTypeHash {
                spec_hash_commands(e, p)
            } else if t == RdbTypeQuicklist {
                match spec_length(v, p) {
                    Err(err) => Err(err),
                    Ok((n, at1)) => match spec_quicklist_members(v, at1, n as nat) {
                        Err(err) => Err(err),
                        Ok(items) => Ok(spec_singles("RPUSH", key, items)),
                    },
                }
            } else {
                Err(RdbError::UnknownObjectType)
            }
        },
    }
}

/// The commands that append the elements of the quicklist in the dump of
/// the entry `e` to its key: one `RPUSH` per element, ziplist by ziplist.
pub open spec fn spec_quicklist_commands(e: EntryView) -> Commands {
    match spec_u8(e.Value, 0) {
        Err(err) => Err(err),
        Ok((_, p)) => match spec_length(e.Value, p) {
            Err(err) => Err(err),
            Ok((n, at1)) => match spec_quicklist_members(e.Value, at1, n as nat) {
                Err(err) => Err(err),
                Ok(items) => Ok(spec_singles("RPUSH", e.Key, items)),
            },
        },
    }
}

/// The time that a key still has to live, in milliseconds, for a bulk load:
/// 0 for a key that does not expire, 1 for a key whose expiry has passed.
pub open spec fn spec_restore_ttl(expire_at: u64, now_ms: u64) -> u64 {
    if expire_at == 0 {
        0
    } else if now_ms >= expire_at {
        1
    } else {
        (expire_at - now_ms) as u64
    }
}

/// Whether the key of entry `e` is rebuilt member by member: any value but a
/// stream whose dump is large or which is a part of an oversized key.
pub open spec fn is_oversized(e: EntryView) -> bool {
    e.Type != RDBTypeStreamListPacks && (e.Value.len() >= BIG_VALUE_BYTES || e.RealMemberCount
        != 0)
}

/// The commands for the entry `e` without the selection of its database.
pub open spec fn spec_key_commands(e: EntryView, now_ms: u64) -> Commands {
    if e.Type == RdbTypeQuicklist {
        match spec_quicklist_commands(e) {
            Err(err) => Err(err),
            Ok(pushes) => Ok(
                seq![seq![text("DEL"), blob(e.Key)]] + pushes + (if e.ExpireAt != 0 {
                    seq![seq![text("EXPIREAT"), blob(e.Key), number(e.ExpireAt as nat)]]
                } else {
                    Seq::empty()
                }),
            ),
        }
    } else if e.Type == RdbFlagAUX && e.Key == "lua".spec_bytes() {
        Ok(seq![seq![text("SCRIPT"), text("load"), blob(e.Value)]])
    } else if is_oversized(e) {
        spec_big_commands(e)
    } else {
        Ok(
            seq![
                seq![text("DEL"), blob(e.Key)],
                seq![
                    text("RESTORE"),
                    blob(e.Key),
                    number(spec_restore_ttl(e.ExpireAt, now_ms) as nat),
                    blob(e.Value),
                ],
            ],
        )
    }
}

/// The commands for the entry `e`, when `active` is the database that was
/// selected on the destination last, if any, and `now_ms` the time in
/// milliseconds since the epoch. A `SELECT` comes first where the database of
/// the entry is not the active one.
pub open spec fn spec_entry_commands(e: EntryView, active: Option<u32>, now_ms: u64) -> Commands {
    match spec_key_commands(e, now_ms) {
        Err(err) => Err(err),
        Ok(cmds) => if active == Some(e.DB) {
            Ok(cmds)
        } else {
            Ok(seq![seq![text("SELECT"), number(e.DB as nat)]] + cmds)
        },
    }
}

/// Builds one command per member.
pub fn singles(name: &str, key: &Vec<u8>, items: &Vec<Vec<u8>>) -> (r: Vec<Cmd>)
    ensures
        cmds_view(r@) == spec_singles(name, key@, items_view(items@)),
{
    let mut out: Vec<Cmd> = Vec::new();
    let mut i: usize = 0;
    let ghost all = spec_singles(name, key@, items_view(items@));
    proof {
        lemma_cmds_view_empty();
        assert(all.subrange(0, 0) =~= Seq::<Seq<ArgView>>::empty());
    }
    while i < items.len()
        invariant
            i <= items.len(),
            all == spec_singles(name, key@, items_view(items@)),
            cmds_view(out@) == all.subrange(0, i as int),
        decreases items.len() - i,
    {
        let c: Cmd = Cmd::named(name).arg(copy_bytes(key)).arg(copy_bytes(&items[i]));
        proof {
            assert(items_view(items@)[i as int] == items@[i as int]@);
            assert(c@ =~= all[i as int]);
            lemma_cmds_view_push(out@, c);
            assert(all.subrange(0, i as int).push(all[i as int]) =~= all.subrange(0, i + 1));
        }
        out.push(c);
        i = i + 1;
    }
    assert(all.subrange(0, i as int) =~= all);
    out
}

/// Builds one command per two members.
pub fn pairs(name: &str, key: &Vec<u8>, items: &Vec<Vec<u8>>, swap: bool) -> (r: Vec<Cmd>)
    ensures
        cmds_view(r@) == spec_pairs(name, key@, items_view(items@), swap),
{
    let mut out: Vec<Cmd> = Vec::new();
    let count: usize = items.len() / 2;
    let mut i: usize = 0;
    let ghost all = spec_pairs(name, key@, items_view(items@), swap);
    proof {
        lemma_cmds_view_empty();
        assert(all.subrange(0, 0) =~= Seq::<Seq<ArgView>>::empty());
    }
    while i < count
        invariant
            i <= count,
            count == items.len() / 2,
            all == spec_pairs(name, key@, items_view(items@), swap),
            cmds_view(out@) == all.subrange(0, i as int),
        decreases count - i,
    {
        let first: Vec<u8> = copy_bytes(&items[2 * i]);
        let second: Vec<u8> = copy_bytes(&items[2 * i + 1]);
        let c: Cmd = if swap {
            Cmd::named(name).arg(copy_bytes(key)).arg(second).arg(first)
        } else {
            Cmd::named(name).arg(copy_bytes(key)).arg(first).arg(second)
        };
        proof {
            assert(items_view(items@)[2 * i] == items@[2 * i]@);
            assert(items_view(items@)[2 * i + 1] == items@[2 * i + 1]@);
            assert(c@ =~= all[i as int]);
            lemma_cmds_view_push(out@, c);
            assert(all.subrange(0, i as int).push(all[i as int]) =~= all.subrange(0, i + 1));
        }
        out.push(c);
        i = i + 1;
    }
    assert(all.subrange(0, i as int) =~= all);
    out
}

/// Builds one `ZADD` per member of a sorted set.
pub fn scored_commands(raw: &Vec<u8>, pos: usize, key: &Vec<u8>, count: u32, binary: bool) -> (r:
    Result<Vec<Cmd>, RdbError>)
    ensures
        same_cmds(r, spec_scored_commands(raw@, pos as int, key@, count as nat, binary)),
{
    let ghost whole = spec_scored_commands(raw@, pos as int, key@, count as nat, binary);
    let mut out: Vec<Cmd> = Vec::new();
    let mut at: usize = pos;
    let mut i: u32 = 0;
    proof {
        lemma_cmds_view_empty();
        match whole {
            Ok(rest) => {
                assert(Seq::<Seq<ArgView>>::empty() + rest =~= rest);
            },
            Err(e) => {},
        }
    }
    while i < count
        invariant
            i <= count,
            whole == spec_scored_commands(raw@, pos as int, key@, count as nat, binary),
            whole == (match spec_scored_commands(
                raw@,
                at as int,
                key@,
                (count - i) as nat,
                binary,
            ) {
                Ok(rest) => Ok::<Seq<Seq<ArgView>>, RdbError>(cmds_view(out@) + rest),
                Err(e) => Err::<Seq<Seq<ArgView>>, RdbError>(e),
            }),
        decreases count - i,
    {
        let ghost done = cmds_view(out@);
        let (member, at1) = string_at(raw, at)?;
        let c: Cmd;
        let at2: usize;
        if binary {
            let (bits, next) = double_at(raw, at1)?;
            c = Cmd::named("ZADD").arg(copy_bytes(key)).arg_double(bits).arg(member);
            at2 = next;
        } else {
            let (score, next) = float_at(raw, at1)?;
            c = Cmd::named("ZADD").arg(copy_bytes(key)).arg(score).arg(member);
            at2 = next;
        }
        proof {
            assert(c@ =~= seq![
                text("ZADD"),
                blob(key@),
                if binary {
                    ArgView::Double(spec_double(raw@, at1 as int)->Ok_0.0)
                } else {
                    blob(spec_float(raw@, at1 as int)->Ok_0.0)
                },
                blob(member@),
            ]);
            match spec_scored_commands(raw@, at2 as int, key@, (count - i - 1) as nat, binary) {
                Ok(rest) => {
                    assert(done + (seq![c@] + rest) =~= done.push(c@) + rest);
                },
                Err(e) => {},
            }
            lemma_cmds_view_push(out@, c);
        }
        out.push(c);
        at = at2;
        i = i + 1;
    }
    proof {
        assert(cmds_view(out@) + Seq::<Seq<ArgView>>::empty() =~= cmds_view(out@));
    }
    Ok(out)
}

/// Turns the quicklist in the dump of `e` into the commands that append
/// its elements to the key.
pub fn OverRestoreQuicklistEntry(e: &BinEntry) -> (r: Result<Vec<Cmd>, RdbError>)
    ensures
        same_cmds(r, spec_quicklist_commands(e@)),
{
    let (_, p) = u8_at(&e.Value, 0)?;
    let (n, at1) = length_at(&e.Value, p)?;
    let items: Vec<Vec<u8>> = quicklist_members(&e.Value, at1, n)?;
    Ok(singles("RPUSH", &e.Key, &items))
}

/// Turns a value that is stored as one string.
pub fn packed_commands(v: &Vec<u8>, p: usize, t: u8, key: &Vec<u8>) -> (r: Result<
    Vec<Cmd>,
    RdbError,
>)
    requires
        is_packed_type(t),
    ensures
        same_cmds(r, spec_packed_commands(v@, p as int, t, key@)),
{
    let (inner, _) = string_at(v, p)?;
    if t == RdbTypeHashZiplist {
        let items: Vec<Vec<u8>> = ziplist_members(&inner, true)?;
        Ok(pairs("HSET", key, &items, false))
    } else if t == RdbTypeZSetZiplist {
        let items: Vec<Vec<u8>> = ziplist_members(&inner, true)?;
        Ok(pairs("ZADD", key, &items, true))
    } else if t == RdbTypeListZiplist {
        let items: Vec<Vec<u8>> = ziplist_members(&inner, false)?;
        Ok(singles("RPUSH", key, &items))
    } else if t == RdbTypeSetIntset {
        let items: Vec<Vec<u8>> = intset_members(&inner)?;
        Ok(singles("SADD", key, &items))
    } else if t == RdbTypeHashZipmap {
        let items: Vec<Vec<u8>> = zipmap_members(&inner)?;
        Ok(pairs("HSET", key, &items, false))
    } else {
        let ghost value = inner@;
        let c: Cmd = Cmd::named("SET").arg(copy_bytes(key)).arg(inner);
        assert(c@ =~= seq![text("SET"), blob(key@), blob(value)]);
        Ok(one_cmd(c))
    }
}

/// Turns the fields of a hash, or of the part of a hash that `e` holds.
pub fn hash_commands(e: &BinEntry, p: usize) -> (r: Result<Vec<Cmd>, RdbError>)
    ensures
        same_cmds(r, spec_hash_commands(e@, p as int)),
{
    let n: u32;
    let at1: usize;
    if e.NeedReadLen == 1 {
        let (rlen, next) = length_at(&e.Value, p)?;
        n = if e.RealMemberCount != 0 {
            e.RealMemberCount
        } else {
            rlen
        };
        at1 = next;
    } else {
        n = e.RealMemberCount;
        at1 = p;
    }
    let (items, _) = items_at(&e.Value, at1, ItemKind::Str, 2 * n as u64)?;
    Ok(pairs("HSET", &e.Key, &items, false))
}

/// Turns the dump of `e` into the commands that rebuild its key member
/// by member.
pub fn OverRestoreBigRdbEntry(e: &BinEntry) -> (r: Result<Vec<Cmd>, RdbError>)
    ensures
        same_cmds(r, spec_big_commands(e@)),
{
    let v: &Vec<u8> = &e.Value;
    let key: &Vec<u8> = &e.Key;
    let (t, p) = u8_at(v, 0)?;
    if t == RdbTypeHashZiplist || t == RdbTypeZSetZiplist || t == RdbTypeListZiplist || t
        == RdbTypeSetIntset || t == RdbTypeHashZipmap || t == RdbTypeString {
        packed_commands(v, p, t, key)
    } else if t == RdbTypeList || t == RdbTypeSet {
        let (n, at1) = length_at(v, p)?;
        let (items, _) = items_at(v, at1, ItemKind::Str, n as u64)?;
        if t == RdbTypeList {
            Ok(singles("RPUSH", key, &items))
        } else {
            Ok(singles("SADD", key, &items))
        }
    } else if t == RdbTypeZSet || t == RdbTypeZSet2 {
        let (n, at1) = length_at(v, p)?;
        scored_commands(v, at1, key, n, t == RdbTypeZSet2)
    } else if t == RdbTypeHash {
        hash_commands(e, p)
    } else if t == RdbTypeQuicklist {
        let (n, at1) = length_at(v, p)?;
        let items: Vec<Vec<u8>> = quicklist_members(v, at1, n)?;
        Ok(singles("RPUSH", key, &items))
    } else {
        Err(RdbError::UnknownObjectType)
    }
}

/// The time that a key still has to live for a bulk load.
pub fn restore_ttl(expire_at: u64, now_ms: u64) -> (ttl: u64)
    ensures
        ttl == spec_restore_ttl(expire_at, now_ms),
{
    if expire_at == 0 {
        0
    } else if now_ms >= expire_at {
        1
    } else {
        expire_at - now_ms
    }
}

/// Turns the entry `e` into the commands for its key.
pub fn key_commands(e: &BinEntry, now_ms: u64) -> (r: Result<Vec<Cmd>, RdbError>)
    ensures
        same_cmds(r, spec_key_commands(e@, now_ms)),
{
    if e.Type == RdbTypeQuicklist {
        let pushes: Vec<Cmd> = OverRestoreQuicklistEntry(e)?;
        let del: Cmd = Cmd::named("DEL").arg(copy_bytes(&e.Key));
        assert(del@ =~= seq![text("DEL"), blob(e@.Key)]);
        let body: Vec<Cmd> = join_cmds(one_cmd(del), pushes);
        if e.ExpireAt != 0 {
            let exp: Cmd = Cmd::named("EXPIREAT").arg(copy_bytes(&e.Key)).arg_number(e.ExpireAt);
            assert(exp@ =~= seq![text("EXPIREAT"), blob(e@.Key), number(e.ExpireAt as nat)]);
            Ok(join_cmds(body, one_cmd(exp)))
        } else {
            proof {
                assert(cmds_view(body@) + Seq::<Seq<ArgView>>::empty() =~= cmds_view(body@));
            }
            Ok(body)
        }
    } else if e.Type == RdbFlagAUX && bytes_are(&e.Key, "lua") {
        let c: Cmd = Cmd::named("SCRIPT").arg_text("load").arg(copy_bytes(&e.Value));
        assert(c@ =~= seq![text("SCRIPT"), text("load"), blob(e@.Value)]);
        Ok(one_cmd(c))
    } else if e.Type != RDBTypeStreamListPacks && (e.Value.len() >= BIG_VALUE_BYTES
        || e.RealMemberCount != 0) {
        OverRestoreBigRdbEntry(e)
    } else {
        let ttlms: u64 = restore_ttl(e.ExpireAt, now_ms);
        let del: Cmd = Cmd::named("DEL").arg(copy_bytes(&e.Key));
        let restore: Cmd = Cmd::named("RESTORE").arg(copy_bytes(&e.Key)).arg_number(ttlms).arg(
            copy_bytes(&e.Value),
        );
        assert(del@ =~= seq![text("DEL"), blob(e@.Key)]);
        assert(restore@ =~= seq![
            text("RESTORE"),
            blob(e@.Key),
            number(ttlms as nat),
            blob(e@.Value),
        ]);
        let out: Vec<Cmd> = join_cmds(one_cmd(del), one_cmd(restore));
        assert(cmds_view(out@) =~= seq![del@, restore@]);
        Ok(out)
    }
}

/// Turns the entry `e` into commands for the destination, on which the
/// database `active` was selected last.
pub fn entry_commands(e: &BinEntry, active: Option<u32>, now_ms: u64) -> (r: Result<
    Vec<Cmd>,
    RdbError,
>)
    ensures
        same_cmds(r, spec_entry_commands(e@, active, now_ms)),
{
    let cmds: Vec<Cmd> = key_commands(e, now_ms)?;
    let same: bool = match active {
        Some(db) => db == e.DB,
        None => false,
    };
    assert(same == (active == Some(e@.DB)));
    if same {
        Ok(cmds)
    } else {
        let select: Cmd = Cmd::named("SELECT").arg_number(e.DB as u64);
        assert(select@ =~= seq![text("SELECT"), number(e.DB as nat)]);
        Ok(join_cmds(one_cmd(select), cmds))
    }
}

/// What one step of the replay does.
pub struct StepRun {
    /// The commands of the next entry; none behind the last entry, when the
    /// checksum has been verified; or the failure.
    pub result: Result<Option<Seq<Seq<ArgView>>>, RdbError>,
    /// The decoder after the step.
    pub loader: LoaderView,
    /// The database selected on the destination after the step.
    pub active: Option<u32>,
}

/// One step of the replay: the next entry is decoded into a fresh entry and
/// turned into commands. At the end marker the checksum is verified
/// instead. A step that fails for want of bytes leaves the decoder as it
/// was, so that it can be taken again when more bytes have arrived.
#[verifier::opaque]
pub open spec fn spec_full_step(l: LoaderView, active: Option<u32>, now_ms: u64) -> StepRun {
    let step = spec_next(l, blank_entry());
    match step.result {
        Ok(_) => match spec_entry_commands(step.entry, active, now_ms) {
            Ok(cmds) => StepRun {
                result: Ok(Some(cmds)),
                loader: step.loader,
                active: Some(step.entry.DB),
            },
            Err(e) => StepRun { result: Err(e), loader: step.loader, active },
        },
        Err(e) => if e == RdbError::RdbEnd {
            match spec_footer(
                step.loader.reader.raw,
                step.loader.reader.nread,
                step.loader.reader.crc64,
            ) {
                Ok(_) => StepRun { result: Ok(None), loader: after_footer(step.loader), active },
                Err(fe) => StepRun {
                    result: Err(fe),
                    loader: if fe == RdbError::Io {
                        l
                    } else {
                        after_footer(step.loader)
                    },
                    active,
                },
            }
        } else {
            StepRun { result: Err(e), loader: step.loader, active }
        },
    }
}

/// What a replay of the rest of a snapshot does.
pub struct FullRun {
    /// The commands of all entries, in the order of the entries; or the
    /// failure that ended the replay.
    pub result: Commands,
    /// The decoder after the replay.
    pub loader: LoaderView,
}

/// The replay of the snapshot from where the decoder `l` stands: step by
/// step up to the verified checksum or the first failure.
pub open spec fn spec_full(l: LoaderView, active: Option<u32>, now_ms: u64) -> FullRun
    decreases l.reader.raw.len() - l.reader.nread,
    when l.wf()
{
    let s = spec_full_step(l, active, now_ms);
    match s.result {
        Ok(Some(cmds)) => {
            proof {
                reveal(spec_full_step);
                lemma_next_advances(l, blank_entry());
            }
            let rest = spec_full(s.loader, s.active, now_ms);
            FullRun {
                result: match rest.result {
                    Ok(more) => Ok(cmds + more),
                    Err(e) => Err(e),
                },
                loader: rest.loader,
            }
        },
        Ok(None) => FullRun { result: Ok(Seq::empty()), loader: s.loader },
        Err(e) => FullRun { result: Err(e), loader: s.loader },
    }
}

/// Whether an executable step result is what the specification gives.
pub open spec fn same_step(
    r: Result<Option<Vec<Cmd>>, RdbError>,
    want: Result<Option<Seq<Seq<ArgView>>>, RdbError>,
) -> bool {
    match want {
        Ok(Some(cmds)) => r matches Ok(Some(got)) && cmds_view(got@) == cmds,
        Ok(None) => r matches Ok(None),
        Err(e) => r matches Err(x) && x == e,
    }
}

/// Takes one step of the replay: decodes the next entry and returns its
/// commands, or, at the end marker, verifies the checksum and returns none.
/// `active` is the database selected on the destination, `now_ms` the time in
/// milliseconds since the epoch.
pub fn full_step(loader: &mut Loader, active: &mut Option<u32>, now_ms: u64) -> (r: Result<
    Option<Vec<Cmd>>,
    RdbError,
>)
    requires
        old(loader).wf(),
    ensures
        final(loader).wf(),
        same_step(r, spec_full_step(old(loader)@, *old(active), now_ms).result),
        final(loader)@ == spec_full_step(old(loader)@, *old(active), now_ms).loader,
        *final(active) == spec_full_step(old(loader)@, *old(active), now_ms).active,
        final(loader)@.reader.raw == old(loader)@.reader.raw,
        r matches Ok(Some(_)) ==> old(loader)@.reader.nread < final(loader)@.reader.nread,
{
    proof {
        reveal(spec_full_step);
        lemma_next_advances(loader@, blank_entry());
    }
    let mut e: BinEntry = BinEntry::new();
    let from: usize = loader.rdbReader.nread;
    let crc: u64 = loader.rdbReader.crc64;
    let db: u32 = loader.db;
    match loader.NextBinEntry(&mut e) {
        Ok(()) => {
            let cmds: Vec<Cmd> = entry_commands(&e, *active, now_ms)?;
            *active = Some(e.DB);
            Ok(Some(cmds))
        },
        Err(err) => {
            if err.is_end() {
                match loader.Footer() {
                    Ok(()) => Ok(None),
                    Err(RdbError::Io) => {
                        // The checksum has not arrived yet: back before the
                        // end marker, for the step to be taken again.
                        loader.rdbReader.nread = from;
                        loader.rdbReader.crc64 = crc;
                        loader.db = db;
                        assert(loader@ =~= old(loader)@);
                        Err(RdbError::Io)
                    },
                    Err(fe) => Err(fe),
                }
            } else {
                Err(err)
            }
        },
    }
}

/// Replays the rest of the snapshot at the time `now_ms`: returns the
/// commands of all entries once the checksum behind the last one has been
/// verified.
pub fn full_at(loader: &mut Loader, now_ms: u64) -> (r: Result<Vec<Cmd>, RdbError>)
    requires
        old(loader).wf(),
    ensures
        final(loader).wf(),
        same_cmds(r, spec_full(old(loader)@, None, now_ms).result),
        final(loader)@ == spec_full(old(loader)@, None, now_ms).loader,
{
    let ghost whole = spec_full(loader@, None, now_ms);
    let mut out: Vec<Cmd> = Vec::new();
    let mut active: Option<u32> = None;
    proof {
        lemma_cmds_view_empty();
        match whole.result {
            Ok(rest) => {
                assert(Seq::<Seq<ArgView>>::empty() + rest =~= rest);
            },
            Err(e) => {},
        }
    }
    loop
        invariant
            loader.wf(),
            whole == spec_full(old(loader)@, None, now_ms),
            whole.loader == spec_full(loader@, active, now_ms).loader,
            whole.result == (match spec_full(loader@, active, now_ms).result {
                Ok(rest) => Ok::<Seq<Seq<ArgView>>, RdbError>(cmds_view(out@) + rest),
                Err(e) => Err::<Seq<Seq<ArgView>>, RdbError>(e),
            }),
        decreases loader@.reader.raw.len() - loader@.reader.nread,
    {
        let ghost done = cmds_view(out@);
        let ghost before = loader@;
        let ghost was = active;
        match full_step(loader, &mut active, now_ms)? {
            Some(cmds) => {
                proof {
                    match spec_full(loader@, active, now_ms).result {
                        Ok(rest) => {
                            assert(done + (cmds_view(cmds@) + rest) =~= (done + cmds_view(cmds@))
                                + rest);
                        },
                        Err(e) => {},
                    }
                }
                out = join_cmds(out, cmds);
            },
            None => {
                proof {
                    assert(done + Seq::<Seq<ArgView>>::empty() =~= done);
                }
                return Ok(out);
            },
        }
    }
}

/// Reads the clock through `time::OffsetDateTime::now_utc` and returns what
/// `unix_timestamp_nanos` says of it: the nanoseconds since the epoch.
/// Nothing is believed of the number.
#[verifier::external_body]
fn clock_nanos() -> i128 {
    time::OffsetDateTime::now_utc().unix_timestamp_nanos()
}

/// The milliseconds in `nanos` nanoseconds: none for a time before the
/// epoch, and no more than 64 bits hold.
pub open spec fn spec_millis(nanos: i128) -> u64 {
    if nanos < 0 {
        0
    } else if nanos / 1_000_000 > u64::MAX {
        u64::MAX
    } else {
        (nanos / 1_000_000) as u64
    }
}

/// Turns nanoseconds since the epoch into milliseconds.
pub fn millis_of(nanos: i128) -> (ms: u64)
    ensures
        ms == spec_millis(nanos),
{
    if nanos < 0 {
        0
    } else {
        let ms: i128 = nanos / 1_000_000;
        if ms > 0xffff_ffff_ffff_ffff {
            0xffff_ffff_ffff_ffff
        } else {
            ms as u64
        }
    }
}

/// The time that the clock shows, in milliseconds since the epoch.
pub fn clock_millis() -> u64 {
    millis_of(clock_nanos())
}

/// Replays the rest of the snapshot at the time that the clock shows when
/// the replay begins.
pub fn full(loader: &mut Loader) -> (r: Result<Vec<Cmd>, RdbError>)
    requires
        old(loader).wf(),
    ensures
        final(loader).wf(),
        exists|now_ms: u64|
            same_cmds(r, #[trigger] spec_full(old(loader)@, None, now_ms).result)
                && final(loader)@ == spec_full(old(loader)@, None, now_ms).loader,
{
    let now_ms: u64 = clock_millis();
    full_at(loader, now_ms)
}

} // verus!
