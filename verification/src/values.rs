//! The values of a snapshot as they are meant: strings, lists, sets, sorted
//! sets and hashes, how each is written into a snapshot, and the proof that
//! the decoder hands each out as it was written and that the replay rebuilds
//! each member by member.
use crate::chunks::{lemma_dump_layout, lemma_first_part_commands};
use crate::cmd::{blob, text, ArgView};
use crate::encode::{
    all_fit,
    enc_len,
    enc_string,
    enc_strings,
    has_at,
    lemma_has_at_split,
    lemma_len_round_trip,
    lemma_string_round_trip,
    lemma_strings_round_trip,
};
use crate::endian::{le_bytes_u64, le_u64, lemma_le_u64_round_trip};
use crate::errors::RdbError;
use crate::full::{
    spec_big_commands,
    spec_packed_commands,
    spec_pairs,
    spec_quicklist_commands,
    spec_scored_commands,
    spec_singles,
};
use crate::packed_values::{
    enc_intset,
    enc_ziplist,
    enc_zipmap,
    int_members,
    lemma_intset_round_trip,
    lemma_ziplist_round_trip,
    lemma_zipmap_round_trip,
    signed_fits,
    zl_all_fit,
    zl_members,
    zm_all_fit,
    zm_members,
    ZlEntry,
    ZmPair,
};
use crate::loader::{
    entry_reader,
    is_value_tag,
    lemma_next_value,
    spec_next,
    spec_value_dump,
    EntryView,
    LoaderView,
};
use crate::members::{spec_items, spec_quicklist_members, spec_ziplist_members, ItemKind};
use crate::object::{
    plain_span,
    spec_object,
    spec_skip_scored,
    spec_skip_strings,
    ObjectSpan,
    RdbTypeHash,
    RdbTypeHashZiplist,
    RdbTypeHashZipmap,
    RdbTypeList,
    RdbTypeListZiplist,
    RdbTypeQuicklist,
    RdbTypeSet,
    RdbTypeSetIntset,
    RdbTypeString,
    RdbTypeZSet,
    RdbTypeZSet2,
    RdbTypeZSetZiplist,
};
use crate::wire::{spec_double, spec_float, spec_length, spec_string, spec_take, spec_u64, spec_u8};
use vstd::prelude::*;

verus! {

/// A value of a key.
pub enum Value {
    /// A string.
    Str { s: Seq<u8> },
    /// A list of elements.
    List { items: Seq<Seq<u8>> },
    /// A set of members.
    Members { items: Seq<Seq<u8>> },
    /// A sorted set: members, and the score of each as the text of a number.
    ZSet { members: Seq<Seq<u8>>, scores: Seq<Seq<u8>> },
    /// A sorted set: members, and the score of each as the bits of a
    /// double.
    ZSet2 { members: Seq<Seq<u8>>, bits: Seq<u64> },
    /// A hash: fields and values in turn.
    Hash { items: Seq<Seq<u8>> },
    /// A value in a packed encoding of type `t`, which a snapshot stores as
    /// one string: a zipmap, a ziplist or an intset.
    Packed { t: u8, bytes: Seq<u8> },
    /// A list as a sequence of ziplists, each stored as one string.
    Quicklist { lists: Seq<Seq<u8>> },
}

/// Members and their scores as text, written in turn: each member as a
/// string, each score as a byte that holds the length of the text and the
/// text.
pub open spec fn enc_scored_text(members: Seq<Seq<u8>>, scores: Seq<Seq<u8>>) -> Seq<u8>
    decreases members.len(),
{
    if members.len() == 0 {
        Seq::empty()
    } else {
        enc_string(members[0]) + (seq![scores[0].len() as u8] + scores[0]) + enc_scored_text(
            members.skip(1),
            scores.skip(1),
        )
    }
}

/// Members and their scores as doubles, written in turn: each member as a
/// string, each score as eight bytes.
pub open spec fn enc_scored_bits(members: Seq<Seq<u8>>, scores: Seq<u64>) -> Seq<u8>
    decreases members.len(),
{
    if members.len() == 0 {
        Seq::empty()
    } else {
        enc_string(members[0]) + le_bytes_u64(scores[0]) + enc_scored_bits(
            members.skip(1),
            scores.skip(1),
        )
    }
}

/// Whether `t` is the type of a packed encoding.
pub open spec fn is_packed_tag(t: u8) -> bool {
    t == RdbTypeHashZipmap || t == RdbTypeListZiplist || t == RdbTypeSetIntset || t
        == RdbTypeZSetZiplist || t == RdbTypeHashZiplist
}

impl Value {
    /// The type tag under which the value is written.
    pub open spec fn tag(self) -> u8 {
        match self {
            Value::Str { .. } => RdbTypeString,
            Value::List { .. } => RdbTypeList,
            Value::Members { .. } => RdbTypeSet,
            Value::ZSet { .. } => RdbTypeZSet,
            Value::ZSet2 { .. } => RdbTypeZSet2,
            Value::Hash { .. } => RdbTypeHash,
            Value::Packed { t, .. } => t,
            Value::Quicklist { .. } => RdbTypeQuicklist,
        }
    }

    /// Whether the value can be written: counts and lengths fit in 32 bits,
    /// the text of a score in a length byte below the three reserved ones,
    /// and every member has its score.
    pub open spec fn fits(self) -> bool {
        match self {
            Value::Str { s } => s.len() <= u32::MAX,
            Value::List { items } => items.len() <= u32::MAX && all_fit(items),
            Value::Members { items } => items.len() <= u32::MAX && all_fit(items),
            Value::ZSet { members, scores } => members.len() <= u32::MAX && all_fit(members)
                && scores.len() == members.len() && forall|k: int|
                0 <= k < scores.len() ==> (#[trigger] scores[k]).len() < 253,
            Value::ZSet2 { members, bits } => members.len() <= u32::MAX && all_fit(members)
                && bits.len() == members.len(),
            Value::Hash { items } => items.len() % 2 == 0 && items.len() / 2 <= u32::MAX
                && all_fit(items),
            Value::Packed { t, bytes } => is_packed_tag(t) && bytes.len() <= u32::MAX,
            Value::Quicklist { lists } => lists.len() <= u32::MAX && all_fit(lists),
        }
    }

    /// The bytes that the value is written as.
    pub open spec fn encoded(self) -> Seq<u8> {
        match self {
            Value::Str { s } => enc_string(s),
            Value::List { items } => enc_len(items.len() as u32) + enc_strings(items),
            Value::Members { items } => enc_len(items.len() as u32) + enc_strings(items),
            Value::ZSet { members, scores } => enc_len(members.len() as u32) + enc_scored_text(
                members,
                scores,
            ),
            Value::ZSet2 { members, bits } => enc_len(members.len() as u32) + enc_scored_bits(
                members,
                bits,
            ),
            Value::Hash { items } => enc_len((items.len() / 2) as u32) + enc_strings(items),
            Value::Packed { t, bytes } => enc_string(bytes),
            Value::Quicklist { lists } => enc_len(lists.len() as u32) + enc_strings(lists),
        }
    }

    /// The value under `key` as it is written into a snapshot: the type tag,
    /// the key, and the value.
    pub open spec fn entry_bytes(self, key: Seq<u8>) -> Seq<u8> {
        seq![self.tag()] + enc_string(key) + self.encoded()
    }
}

/// One `ZADD` per member with its score as text.
pub open spec fn zadd_text(key: Seq<u8>, members: Seq<Seq<u8>>, scores: Seq<Seq<u8>>) -> Seq<
    Seq<ArgView>,
> {
    Seq::new(
        members.len(),
        |i: int| seq![text("ZADD"), blob(key), blob(scores[i]), blob(members[i])],
    )
}

/// One `ZADD` per member with its score as a double.
pub open spec fn zadd_bits(key: Seq<u8>, members: Seq<Seq<u8>>, scores: Seq<u64>) -> Seq<
    Seq<ArgView>,
> {
    Seq::new(
        members.len(),
        |i: int| seq![text("ZADD"), blob(key), ArgView::Double(scores[i]), blob(members[i])],
    )
}

/// Written members with scores as text are passed over as a whole and are
/// rebuilt one by one.
pub proof fn lemma_scored_text_round_trip(
    raw: Seq<u8>,
    pos: int,
    key: Seq<u8>,
    members: Seq<Seq<u8>>,
    scores: Seq<Seq<u8>>,
)
    requires
        all_fit(members),
        scores.len() == members.len(),
        forall|k: int| 0 <= k < scores.len() ==> (#[trigger] scores[k]).len() < 253,
        has_at(raw, pos, enc_scored_text(members, scores)),
    ensures
        spec_skip_scored(raw, pos, members.len(), false) == Ok::<int, RdbError>(
            pos + enc_scored_text(members, scores).len(),
        ),
        spec_scored_commands(raw, pos, key, members.len(), false) == Ok::<
            Seq<Seq<ArgView>>,
            RdbError,
        >(zadd_text(key, members, scores)),
    decreases members.len(),
{
    if members.len() == 0 {
        assert(zadd_text(key, members, scores) =~= Seq::<Seq<ArgView>>::empty());
    } else {
        reveal(spec_float);
        let m = members[0];
        let s = scores[0];
        let score_bytes = seq![s.len() as u8] + s;
        let rest = enc_scored_text(members.skip(1), scores.skip(1));
        lemma_has_at_split(raw, pos, enc_string(m) + score_bytes, rest);
        lemma_has_at_split(raw, pos, enc_string(m), score_bytes);
        lemma_string_round_trip(raw, pos, m);
        let at1 = pos + enc_string(m).len();
        lemma_has_at_split(raw, at1, seq![s.len() as u8], s);
        assert(raw[at1] == s.len() as u8) by {
            assert(raw.subrange(at1, at1 + 1)[0] == s.len() as u8);
        }
        let at2 = at1 + 1 + s.len();
        assert(spec_float(raw, at1) == Ok::<(Seq<u8>, int), RdbError>((s, at2)));
        assert(all_fit(members.skip(1))) by {
            assert forall|k: int| 0 <= k < members.skip(1).len() implies (
            #[trigger] members.skip(1)[k]).len() <= u32::MAX by {
                assert(members.skip(1)[k] == members[k + 1]);
            }
        }
        assert forall|k: int| 0 <= k < scores.skip(1).len() implies (#[trigger] scores.skip(
            1,
        )[k]).len() < 253 by {
            assert(scores.skip(1)[k] == scores[k + 1]);
        }
        lemma_scored_text_round_trip(raw, at2, key, members.skip(1), scores.skip(1));
        let tail = zadd_text(key, members.skip(1), scores.skip(1));
        assert(seq![seq![text("ZADD"), blob(key), blob(s), blob(m)]] + tail =~= zadd_text(
            key,
            members,
            scores,
        ));
    }
}

/// Written members with scores as doubles are passed over as a whole and
/// are rebuilt one by one.
pub proof fn lemma_scored_bits_round_trip(
    raw: Seq<u8>,
    pos: int,
    key: Seq<u8>,
    members: Seq<Seq<u8>>,
    scores: Seq<u64>,
)
    requires
        all_fit(members),
        scores.len() == members.len(),
        has_at(raw, pos, enc_scored_bits(members, scores)),
    ensures
        spec_skip_scored(raw, pos, members.len(), true) == Ok::<int, RdbError>(
            pos + enc_scored_bits(members, scores).len(),
        ),
        spec_scored_commands(raw, pos, key, members.len(), true) == Ok::<
            Seq<Seq<ArgView>>,
            RdbError,
        >(zadd_bits(key, members, scores)),
    decreases members.len(),
{
    if members.len() == 0 {
        assert(zadd_bits(key, members, scores) =~= Seq::<Seq<ArgView>>::empty());
    } else {
        let m = members[0];
        let s = scores[0];
        let rest = enc_scored_bits(members.skip(1), scores.skip(1));
        lemma_le_u64_round_trip(s);
        lemma_has_at_split(raw, pos, enc_string(m) + le_bytes_u64(s), rest);
        lemma_has_at_split(raw, pos, enc_string(m), le_bytes_u64(s));
        lemma_string_round_trip(raw, pos, m);
        let at1 = pos + enc_string(m).len();
        let at2 = at1 + 8;
        assert(spec_double(raw, at1) == Ok::<(u64, int), RdbError>((s, at2)));
        assert(all_fit(members.skip(1))) by {
            assert forall|k: int| 0 <= k < members.skip(1).len() implies (
            #[trigger] members.skip(1)[k]).len() <= u32::MAX by {
                assert(members.skip(1)[k] == members[k + 1]);
            }
        }
        lemma_scored_bits_round_trip(raw, at2, key, members.skip(1), scores.skip(1));
        let tail = zadd_bits(key, members.skip(1), scores.skip(1));
        assert(seq![seq![text("ZADD"), blob(key), ArgView::Double(s), blob(m)]] + tail
            =~= zadd_bits(key, members, scores));
    }
}

/// A written value is passed over as a whole: where a value other than a
/// hash stands written at `pos`, the decoder finds its end behind its last
/// byte and counts no members.
pub proof fn lemma_value_span(raw: Seq<u8>, pos: int, v: Value)
    requires
        v.fits(),
        !(v is Hash),
        has_at(raw, pos, v.encoded()),
    ensures
        spec_object(raw, pos, v.tag(), 0, 0, 0) == Ok::<ObjectSpan, RdbError>(
            plain_span(pos + v.encoded().len()),
        ),
{
    match v {
        Value::Str { s } => {
            lemma_string_round_trip(raw, pos, s);
        },
        Value::Packed { t, bytes } => {
            lemma_string_round_trip(raw, pos, bytes);
        },
        Value::List { items } => {
            lemma_has_at_split(raw, pos, enc_len(items.len() as u32), enc_strings(items));
            lemma_len_round_trip(raw, pos, items.len() as u32);
            lemma_strings_round_trip(raw, pos + enc_len(items.len() as u32).len(), items, 0);
        },
        Value::Members { items } => {
            lemma_has_at_split(raw, pos, enc_len(items.len() as u32), enc_strings(items));
            lemma_len_round_trip(raw, pos, items.len() as u32);
            lemma_strings_round_trip(raw, pos + enc_len(items.len() as u32).len(), items, 0);
        },
        Value::Quicklist { lists } => {
            lemma_has_at_split(raw, pos, enc_len(lists.len() as u32), enc_strings(lists));
            lemma_len_round_trip(raw, pos, lists.len() as u32);
            lemma_strings_round_trip(raw, pos + enc_len(lists.len() as u32).len(), lists, 0);
        },
        Value::ZSet { members, scores } => {
            let n = members.len() as u32;
            lemma_has_at_split(raw, pos, enc_len(n), enc_scored_text(members, scores));
            lemma_len_round_trip(raw, pos, n);
            lemma_scored_text_round_trip(
                raw,
                pos + enc_len(n).len(),
                Seq::empty(),
                members,
                scores,
            );
        },
        Value::ZSet2 { members, bits } => {
            let n = members.len() as u32;
            lemma_has_at_split(raw, pos, enc_len(n), enc_scored_bits(members, bits));
            lemma_len_round_trip(raw, pos, n);
            lemma_scored_bits_round_trip(
                raw,
                pos + enc_len(n).len(),
                Seq::empty(),
                members,
                bits,
            );
        },
        Value::Hash { items } => {},
    }
}

/// Decoding hands out what was written: where a value other than a hash
/// stands written under `key` before the decoder, the next entry carries the
/// key, the type of the value and a dump of exactly the bytes of the value,
/// in the database that is selected, with the expiry, idle time and frequency
/// that `e` came with, and the decoder stands behind the value. (A hash comes
/// in as many entries as its size asks for: see `lemma_hash_in_parts`.)
pub proof fn lemma_entry_round_trip(l: LoaderView, e: EntryView, key: Seq<u8>, v: Value)
    requires
        l.wf(),
        l.reader.remainMember == 0,
        key.len() <= u32::MAX,
        v.fits(),
        !(v is Hash),
        has_at(l.reader.raw, l.reader.nread, v.entry_bytes(key)),
    ensures
        spec_next(l, e).result is Ok,
        spec_next(l, e).entry == (EntryView {
            DB: l.db,
            Key: key,
            Type: v.tag(),
            Value: spec_value_dump(v.tag(), v.encoded()),
            ExpireAt: e.ExpireAt,
            RealMemberCount: 0,
            NeedReadLen: 1,
            IdleTime: e.IdleTime,
            Freq: e.Freq,
        }),
        spec_next(l, e).loader.reader.nread == l.reader.nread + v.entry_bytes(key).len(),
        spec_next(l, e).loader.reader.remainMember == 0,
        spec_next(l, e).loader.db == l.db,
{
    let raw = l.reader.raw;
    let pos = l.reader.nread;
    let tag = seq![v.tag()];
    lemma_has_at_split(raw, pos, tag + enc_string(key), v.encoded());
    lemma_has_at_split(raw, pos, tag, enc_string(key));
    assert(raw[pos] == v.tag()) by {
        assert(raw.subrange(pos, pos + 1)[0] == tag[0]);
    }
    lemma_string_round_trip(raw, pos + 1, key);
    let start = pos + 1 + enc_string(key).len();
    lemma_value_span(raw, start, v);
    let span = plain_span(start + v.encoded().len());
    assert(spec_u8(raw, pos) == Ok::<(u8, int), RdbError>((v.tag(), pos + 1)));
    lemma_next_value(l, e, v.tag(), key, span);
    assert(raw.subrange(start, span.next) == v.encoded());
}

/// The commands that set a value under `key` member by member.
pub open spec fn value_commands(key: Seq<u8>, v: Value) -> Seq<Seq<ArgView>>
    recommends
        !(v is Packed),
        !(v is Quicklist),
{
    match v {
        Value::Str { s } => seq![seq![text("SET"), blob(key), blob(s)]],
        Value::List { items } => spec_singles("RPUSH", key, items),
        Value::Members { items } => spec_singles("SADD", key, items),
        Value::ZSet { members, scores } => zadd_text(key, members, scores),
        Value::ZSet2 { members, bits } => zadd_bits(key, members, bits),
        Value::Hash { items } => spec_pairs("HSET", key, items, false),
        _ => Seq::empty(),
    }
}

/// Replaying member by member rebuilds what was written: from the dump of a
/// string, a list, a set, a sorted set or a whole hash, the commands that
/// rebuild the key set exactly the members of the value, in their order.
pub proof fn lemma_members_round_trip(e: EntryView, v: Value)
    requires
        v.fits(),
        !(v is Packed),
        !(v is Quicklist),
        e.Type == v.tag(),
        e.Value == spec_value_dump(v.tag(), v.encoded()),
        v is Hash ==> e.NeedReadLen == 1 && e.RealMemberCount == 0,
    ensures
        spec_big_commands(e) == Ok::<Seq<Seq<ArgView>>, RdbError>(value_commands(e.Key, v)),
{
    let dump = e.Value;
    lemma_dump_layout(v.tag(), v.encoded());
    match v {
        Value::Str { s } => {
            lemma_string_round_trip(dump, 1, s);
            assert(spec_packed_commands(dump, 1, RdbTypeString, e.Key) == Ok::<
                Seq<Seq<ArgView>>,
                RdbError,
            >(value_commands(e.Key, v)));
        },
        Value::List { items } => {
            let n = items.len() as u32;
            lemma_has_at_split(dump, 1, enc_len(n), enc_strings(items));
            lemma_len_round_trip(dump, 1, n);
            lemma_strings_round_trip(dump, 1 + enc_len(n).len() as int, items, 0);
        },
        Value::Members { items } => {
            let n = items.len() as u32;
            lemma_has_at_split(dump, 1, enc_len(n), enc_strings(items));
            lemma_len_round_trip(dump, 1, n);
            lemma_strings_round_trip(dump, 1 + enc_len(n).len() as int, items, 0);
        },
        Value::ZSet { members, scores } => {
            let n = members.len() as u32;
            lemma_has_at_split(dump, 1, enc_len(n), enc_scored_text(members, scores));
            lemma_len_round_trip(dump, 1, n);
            lemma_scored_text_round_trip(
                dump,
                1 + enc_len(n).len() as int,
                e.Key,
                members,
                scores,
            );
        },
        Value::ZSet2 { members, bits } => {
            let n = members.len() as u32;
            lemma_has_at_split(dump, 1, enc_len(n), enc_scored_bits(members, bits));
            lemma_len_round_trip(dump, 1, n);
            lemma_scored_bits_round_trip(
                dump,
                1 + enc_len(n).len() as int,
                e.Key,
                members,
                bits,
            );
        },
        Value::Hash { items } => {
            let n = (items.len() / 2) as int;
            lemma_first_part_commands(e, items, n, n);
        },
        _ => {},
    }
}

/// Replaying a ziplist rebuilds its entries: from the dump of a list, a hash
/// or a sorted set that is stored as a ziplist, the commands that rebuild
/// the key push the entries one by one, set them as fields and values, or add
/// them as members with the scores that follow them.
pub proof fn lemma_ziplist_value_round_trip(
    e: EntryView,
    t: u8,
    sizes: Seq<u8>,
    entries: Seq<ZlEntry>,
)
    requires
        t == RdbTypeListZiplist || t == RdbTypeHashZiplist || t == RdbTypeZSetZiplist,
        sizes.len() == 8,
        entries.len() <= 0xffff,
        zl_all_fit(entries),
        t != RdbTypeListZiplist ==> entries.len() % 2 == 0,
        enc_ziplist(sizes, entries).len() <= u32::MAX,
        e.Value == spec_value_dump(t, enc_string(enc_ziplist(sizes, entries))),
    ensures
        spec_big_commands(e) == Ok::<Seq<Seq<ArgView>>, RdbError>(
            if t == RdbTypeHashZiplist {
                spec_pairs("HSET", e.Key, zl_members(entries), false)
            } else if t == RdbTypeZSetZiplist {
                spec_pairs("ZADD", e.Key, zl_members(entries), true)
            } else {
                spec_singles("RPUSH", e.Key, zl_members(entries))
            },
        ),
{
    let zl = enc_ziplist(sizes, entries);
    lemma_dump_layout(t, enc_string(zl));
    lemma_string_round_trip(e.Value, 1, zl);
    lemma_ziplist_round_trip(sizes, entries, t != RdbTypeListZiplist);
    assert(spec_packed_commands(e.Value, 1, t, e.Key) is Ok);
}

/// Replaying an intset rebuilds its members: from the dump of a set that is
/// stored as an intset, the commands that rebuild the key add the decimal
/// text of every member.
pub proof fn lemma_intset_value_round_trip(e: EntryView, width: int, values: Seq<int>)
    requires
        width == 2 || width == 4 || width == 8,
        values.len() <= u32::MAX,
        forall|k: int| 0 <= k < values.len() ==> signed_fits(#[trigger] values[k], width),
        enc_intset(width, values).len() <= u32::MAX,
        e.Value == spec_value_dump(RdbTypeSetIntset, enc_string(enc_intset(width, values))),
    ensures
        spec_big_commands(e) == Ok::<Seq<Seq<ArgView>>, RdbError>(
            spec_singles("SADD", e.Key, int_members(values)),
        ),
{
    let set = enc_intset(width, values);
    lemma_dump_layout(RdbTypeSetIntset, enc_string(set));
    lemma_string_round_trip(e.Value, 1, set);
    lemma_intset_round_trip(width, values);
    assert(spec_packed_commands(e.Value, 1, RdbTypeSetIntset, e.Key) is Ok);
}

/// Replaying a zipmap rebuilds its pairs: from the dump of a hash that is
/// stored as a zipmap, the commands that rebuild the key set every field to
/// its value.
pub proof fn lemma_zipmap_value_round_trip(e: EntryView, len_byte: u8, pairs: Seq<ZmPair>)
    requires
        zm_all_fit(pairs),
        2 * pairs.len() <= i32::MAX,
        len_byte < 254 ==> len_byte == pairs.len(),
        enc_zipmap(len_byte, pairs).len() <= u32::MAX,
        e.Value == spec_value_dump(
            RdbTypeHashZipmap,
            enc_string(enc_zipmap(len_byte, pairs)),
        ),
    ensures
        spec_big_commands(e) == Ok::<Seq<Seq<ArgView>>, RdbError>(
            spec_pairs("HSET", e.Key, zm_members(pairs), false),
        ),
{
    let zm = enc_zipmap(len_byte, pairs);
    lemma_dump_layout(RdbTypeHashZipmap, enc_string(zm));
    lemma_string_round_trip(e.Value, 1, zm);
    lemma_zipmap_round_trip(len_byte, pairs);
    assert(spec_packed_commands(e.Value, 1, RdbTypeHashZipmap, e.Key) is Ok);
}

/// A ziplist as it is written into a quicklist: the eight bytes of its
/// sizes, and its entries.
pub struct QlNode {
    pub sizes: Seq<u8>,
    pub entries: Seq<ZlEntry>,
}

impl QlNode {
    /// Whether the ziplist can be written as one string.
    pub open spec fn fits(self) -> bool {
        self.sizes.len() == 8 && self.entries.len() <= 0xffff && zl_all_fit(self.entries)
            && enc_ziplist(self.sizes, self.entries).len() <= u32::MAX
    }
}

/// The ziplists of `nodes`, each written as one string.
pub open spec fn enc_nodes(nodes: Seq<QlNode>) -> Seq<u8>
    decreases nodes.len(),
{
    if nodes.len() == 0 {
        Seq::empty()
    } else {
        enc_string(enc_ziplist(nodes[0].sizes, nodes[0].entries)) + enc_nodes(nodes.skip(1))
    }
}

/// The entries of the ziplists of `nodes`, one ziplist after the other.
pub open spec fn node_members(nodes: Seq<QlNode>) -> Seq<Seq<u8>>
    decreases nodes.len(),
{
    if nodes.len() == 0 {
        Seq::empty()
    } else {
        zl_members(nodes[0].entries) + node_members(nodes.skip(1))
    }
}

/// The entries of written ziplists are read back, ziplist by ziplist.
pub proof fn lemma_nodes_round_trip(raw: Seq<u8>, pos: int, nodes: Seq<QlNode>)
    requires
        forall|k: int| 0 <= k < nodes.len() ==> (#[trigger] nodes[k]).fits(),
        has_at(raw, pos, enc_nodes(nodes)),
    ensures
        spec_quicklist_members(raw, pos, nodes.len()) == Ok::<Seq<Seq<u8>>, RdbError>(
            node_members(nodes),
        ),
    decreases nodes.len(),
{
    if nodes.len() > 0 {
        let first = nodes[0];
        let rest = nodes.skip(1);
        let zl = enc_ziplist(first.sizes, first.entries);
        lemma_has_at_split(raw, pos, enc_string(zl), enc_nodes(rest));
        lemma_string_round_trip(raw, pos, zl);
        lemma_ziplist_round_trip(first.sizes, first.entries, false);
        assert forall|k: int| 0 <= k < rest.len() implies (#[trigger] rest[k]).fits() by {
            assert(rest[k] == nodes[k + 1]);
        }
        lemma_nodes_round_trip(raw, pos + enc_string(zl).len(), rest);
    }
}

/// Replaying a quicklist rebuilds its elements: from the dump of a list
/// that is stored as a sequence of ziplists, the commands that rebuild the
/// key push the entries of all ziplists, in their order.
pub proof fn lemma_quicklist_value_round_trip(e: EntryView, nodes: Seq<QlNode>)
    requires
        nodes.len() <= u32::MAX,
        forall|k: int| 0 <= k < nodes.len() ==> (#[trigger] nodes[k]).fits(),
        e.Value == spec_value_dump(
            RdbTypeQuicklist,
            enc_len(nodes.len() as u32) + enc_nodes(nodes),
        ),
    ensures
        spec_quicklist_commands(e) == Ok::<Seq<Seq<ArgView>>, RdbError>(
            spec_singles("RPUSH", e.Key, node_members(nodes)),
        ),
        spec_big_commands(e) == spec_quicklist_commands(e),
{
    let n = nodes.len() as u32;
    lemma_dump_layout(RdbTypeQuicklist, enc_len(n) + enc_nodes(nodes));
    lemma_has_at_split(e.Value, 1, enc_len(n), enc_nodes(nodes));
    lemma_len_round_trip(e.Value, 1, n);
    lemma_nodes_round_trip(e.Value, 1 + enc_len(n).len() as int, nodes);
}

} // verus!
