//! A hash that is too large for one entry: the entries that it is handed out
//! in, and the proof that together they hold the hash.
use crate::cmd::{blob, text, ArgView};
use crate::encode::{
    all_fit,
    enc_len,
    enc_string,
    enc_strings,
    has_at,
    lemma_has_at_join,
    lemma_has_at_split,
    lemma_len_round_trip,
    lemma_string_round_trip,
    lemma_strings_round_trip,
};
use crate::endian::{le_bytes_u16, le_bytes_u64};
use crate::errors::RdbError;
use crate::full::{spec_big_commands, spec_hash_commands, spec_pairs, Commands};
use crate::loader::{
    blank_entry,
    lemma_next_advances,
    lemma_next_value,
    spec_next,
    spec_value_dump,
    EntryView,
    LoaderView,
};
use crate::members::{spec_items, ItemKind};
use crate::object::{spec_hash_members, spec_hash_span, spec_object, RdbTypeHash};
use crate::wire::{spec_length, spec_string, spec_u8};
use vstd::prelude::*;

verus! {

/// The entries that are handed out for the key at which the decoder `l`
/// stands: the entry of the first call, and the entries of further calls as
/// long as members of the key are left over.
pub open spec fn spec_parts(l: LoaderView) -> Seq<EntryView>
    decreases l.reader.raw.len() - l.reader.nread,
    when l.wf()
{
    let step = spec_next(l, blank_entry());
    if step.result is Ok {
        if step.loader.reader.remainMember != 0 {
            proof {
                lemma_next_advances(l, blank_entry());
            }
            seq![step.entry] + spec_parts(step.loader)
        } else {
            seq![step.entry]
        }
    } else {
        Seq::empty()
    }
}

/// The sum of the member counts of the entries `parts`.
pub open spec fn sum_counts(parts: Seq<EntryView>) -> int
    decreases parts.len(),
{
    if parts.len() == 0 {
        0
    } else {
        parts[0].RealMemberCount + sum_counts(parts.skip(1))
    }
}

/// The commands that rebuild the key of the entries `parts` member by
/// member, entry after entry.
pub open spec fn spec_parts_commands(parts: Seq<EntryView>) -> Commands
    decreases parts.len(),
{
    if parts.len() == 0 {
        Ok(Seq::empty())
    } else {
        match spec_big_commands(parts[0]) {
            Err(e) => Err(e),
            Ok(first) => match spec_parts_commands(parts.skip(1)) {
                Err(e) => Err(e),
                Ok(rest) => Ok(first + rest),
            },
        }
    }
}

/// Strings written one after the other are two lists of strings written
/// one after the other.
pub proof fn lemma_enc_strings_concat(a: Seq<Seq<u8>>, b: Seq<Seq<u8>>)
    ensures
        enc_strings(a + b) == enc_strings(a) + enc_strings(b),
    decreases a.len(),
{
    if a.len() == 0 {
        assert(a + b =~= b);
        assert(enc_strings(a) + enc_strings(b) =~= enc_strings(b));
    } else {
        lemma_enc_strings_concat(a.skip(1), b);
        assert((a + b).skip(1) =~= a.skip(1) + b);
        assert((a + b)[0] == a[0]);
        assert(enc_string(a[0]) + (enc_strings(a.skip(1)) + enc_strings(b)) =~= (enc_string(a[0])
            + enc_strings(a.skip(1))) + enc_strings(b));
    }
}

/// The commands for the pairs of two lists, the first of which holds whole
/// pairs, are the commands for the one list and then those for the other.
pub proof fn lemma_pairs_concat(name: &str, key: Seq<u8>, a: Seq<Seq<u8>>, b: Seq<Seq<u8>>)
    requires
        a.len() % 2 == 0,
    ensures
        spec_pairs(name, key, a + b, false) == spec_pairs(name, key, a, false) + spec_pairs(
            name,
            key,
            b,
            false,
        ),
{
    let whole = spec_pairs(name, key, a + b, false);
    let parts = spec_pairs(name, key, a, false) + spec_pairs(name, key, b, false);
    assert(whole.len() == parts.len());
    assert forall|i: int| 0 <= i < whole.len() implies whole[i] == parts[i] by {
        if i < a.len() / 2 {
            assert((a + b)[2 * i] == a[2 * i]);
            assert((a + b)[2 * i + 1] == a[2 * i + 1]);
        } else {
            let j = i - a.len() / 2;
            assert((a + b)[2 * i] == b[2 * j]);
            assert((a + b)[2 * i + 1] == b[2 * j + 1]);
        }
    }
    assert(whole =~= parts);
}

/// A dump begins with the type tag, and the encoded bytes stand behind it.
pub proof fn lemma_dump_layout(t: u8, payload: Seq<u8>)
    ensures
        spec_value_dump(t, payload).len() == payload.len() + 11,
        spec_value_dump(t, payload)[0] == t,
        has_at(spec_value_dump(t, payload), 1, payload),
        spec_u8(spec_value_dump(t, payload), 0) == Ok::<(u8, int), RdbError>((t, 1)),
{
    let v = spec_value_dump(t, payload);
    assert(v.subrange(1, 1 + payload.len() as int) =~= payload);
    assert(v.subrange(0, 1)[0] == t);
}

/// The members of a hash that one entry takes are whole pairs of the
/// written strings: where the fields and values `items` of a hash of `n`
/// pairs stand in `raw` from pair `i` on, an entry takes the pairs up to a
/// pair `count`, at least one if any is left, and ends behind them.
pub proof fn lemma_hash_members(
    raw: Seq<u8>,
    pos: int,
    items: Seq<Seq<u8>>,
    n: int,
    i: int,
    cached: int,
)
    requires
        all_fit(items),
        items.len() == 2 * n,
        0 <= i <= n,
        has_at(raw, pos, enc_strings(items.subrange(2 * i, 2 * n))),
    ensures
        spec_hash_members(raw, pos, n as nat, i as nat, cached) matches Ok((next, count)) && i
            <= count <= n && (i < n ==> i < count) && next == pos + enc_strings(
            items.subrange(2 * i, 2 * count as int),
        ).len(),
    decreases n - i,
{
    if i >= n {
        assert(items.subrange(2 * i, 2 * i) =~= Seq::<Seq<u8>>::empty());
    } else {
        let here = items.subrange(2 * i, 2 * n);
        let field = items[2 * i];
        let value = items[2 * i + 1];
        let pair = seq![field, value];
        let rest = items.subrange(2 * i + 2, 2 * n);
        assert(here =~= pair + rest);
        lemma_enc_strings_concat(pair, rest);
        assert(enc_strings(pair) =~= enc_string(field) + enc_string(value)) by {
            assert(pair.skip(1) =~= seq![value]);
            assert(pair.skip(1).skip(1) =~= Seq::<Seq<u8>>::empty());
            assert(enc_strings(pair.skip(1)) =~= enc_string(value) + enc_strings(
                pair.skip(1).skip(1),
            ));
            assert(enc_strings(pair.skip(1)) =~= enc_string(value));
        }
        lemma_has_at_split(raw, pos, enc_strings(pair), enc_strings(rest));
        lemma_has_at_split(raw, pos, enc_string(field), enc_string(value));
        lemma_string_round_trip(raw, pos, field);
        let at1 = pos + enc_string(field).len();
        lemma_string_round_trip(raw, at1, value);
        let at2 = at1 + enc_string(value).len();
        assert(at2 == pos + enc_strings(pair).len());
        if cached + (at2 - pos) > crate::object::CHUNK_BYTES && i != n - 1 {
            assert(items.subrange(2 * i, 2 * (i + 1)) =~= pair);
        } else {
            lemma_hash_members(raw, at2, items, n, i + 1, cached + (at2 - pos));
            let count = spec_hash_members(
                raw,
                at2,
                n as nat,
                (i + 1) as nat,
                cached + (at2 - pos),
            )->Ok_0.1 as int;
            let more = items.subrange(2 * i + 2, 2 * count);
            assert(items.subrange(2 * i, 2 * count) =~= pair + more);
            lemma_enc_strings_concat(pair, more);
        }
    }
}

/// What an entry holds that continues a hash: where `a` of the `n` pairs
/// of a hash have been handed out and the others stand before the decoder,
/// the entries still to come carry the key, count their pairs, and rebuild
/// exactly the pairs that were left.
pub proof fn lemma_hash_rest(l: LoaderView, key: Seq<u8>, items: Seq<Seq<u8>>, n: int, a: int)
    requires
        l.wf(),
        1 <= a < n <= u32::MAX,
        l.reader.remainMember == n - a,
        l.reader.totMemberCount == n,
        l.last.Key == key,
        l.last.Type == RdbTypeHash,
        all_fit(items),
        items.len() == 2 * n,
        has_at(l.reader.raw, l.reader.nread, enc_strings(items.subrange(2 * a, 2 * n))),
    ensures
        spec_parts(l).len() >= 1,
        forall|k: int|
            0 <= k < spec_parts(l).len() ==> (#[trigger] spec_parts(l)[k]).Key == key
                && spec_parts(l)[k].Type == RdbTypeHash && spec_parts(l)[k].DB == l.db
                && spec_parts(l)[k].RealMemberCount > 0,
        sum_counts(spec_parts(l)) == n - a,
        spec_parts_commands(spec_parts(l)) == Ok::<Seq<Seq<ArgView>>, RdbError>(
            spec_pairs("HSET", key, items.subrange(2 * a, 2 * n), false),
        ),
    decreases n - a,
{
    let rd = l.reader;
    let left = items.subrange(2 * a, 2 * n);
    let m = n - a;
    assert(all_fit(left)) by {
        assert forall|k: int| 0 <= k < left.len() implies (#[trigger] left[k]).len()
            <= u32::MAX by {
            assert(left[k] == items[2 * a + k]);
        }
    }
    assert(left.subrange(0, 2 * m) =~= left);
    lemma_hash_members(rd.raw, rd.nread, left, m, 0, 0);
    let got = spec_hash_members(rd.raw, rd.nread, m as nat, 0, 0)->Ok_0;
    let next = got.0;
    let c = got.1 as int;
    let taken = left.subrange(0, 2 * c);
    let span = spec_hash_span(rd.raw, rd.nread, rd.remainMember, rd.totMemberCount, 0)->Ok_0;
    assert(spec_object(rd.raw, rd.nread, RdbTypeHash, rd.remainMember, rd.totMemberCount, 0)
        == Ok::<crate::object::ObjectSpan, RdbError>(span));
    let step = spec_next(l, blank_entry());
    let e = step.entry;
    assert(step.result is Ok);
    assert(e.Key == key && e.Type == RdbTypeHash && e.DB == l.db);
    assert(e.RealMemberCount == c);
    assert(e.NeedReadLen == 0);
    // the bytes of the entry are the pairs taken
    lemma_enc_strings_concat(taken, left.subrange(2 * c, 2 * m));
    assert(taken + left.subrange(2 * c, 2 * m) =~= left);
    lemma_has_at_split(
        rd.raw,
        rd.nread,
        enc_strings(taken),
        enc_strings(left.subrange(2 * c, 2 * m)),
    );
    let payload = rd.raw.subrange(rd.nread, next);
    assert(payload == enc_strings(taken));
    assert(e.Value == spec_value_dump(RdbTypeHash, payload));
    lemma_dump_layout(RdbTypeHash, payload);
    assert(all_fit(taken)) by {
        assert forall|k: int| 0 <= k < taken.len() implies (#[trigger] taken[k]).len()
            <= u32::MAX by {
            assert(taken[k] == left[k]);
        }
    }
    lemma_strings_round_trip(e.Value, 1, taken, 0);
    assert(spec_hash_commands(e, 1) == Ok::<Seq<Seq<ArgView>>, RdbError>(
        spec_pairs("HSET", key, taken, false),
    ));
    assert(spec_big_commands(e) == Ok::<Seq<Seq<ArgView>>, RdbError>(
        spec_pairs("HSET", key, taken, false),
    ));
    lemma_next_advances(l, blank_entry());
    let parts = spec_parts(l);
    if step.loader.reader.remainMember != 0 {
        let rest_items = items.subrange(2 * (a + c), 2 * n);
        assert(left.subrange(2 * c, 2 * m) =~= rest_items);
        lemma_hash_rest(step.loader, key, items, n, a + c);
        let tail = spec_parts(step.loader);
        assert(parts == seq![e] + tail);
        assert(parts.skip(1) =~= tail);
        assert(parts[0] == e);
        assert forall|k: int| 0 <= k < parts.len() implies (#[trigger] parts[k]).Key == key
            && parts[k].Type == RdbTypeHash && parts[k].DB == l.db && parts[k].RealMemberCount
            > 0 by {
            if k > 0 {
                assert(parts[k] == tail[k - 1]);
            }
        }
        lemma_pairs_concat("HSET", key, taken, rest_items);
        assert(taken + rest_items =~= left);
    } else {
        assert(parts == seq![e]);
        assert(parts.skip(1) =~= Seq::<EntryView>::empty());
        assert(sum_counts(parts.skip(1)) == 0);
        assert(spec_parts_commands(parts.skip(1)) == Ok::<Seq<Seq<ArgView>>, RdbError>(
            Seq::empty(),
        ));
        assert(taken =~= left);
        assert(spec_pairs("HSET", key, taken, false) + Seq::<Seq<ArgView>>::empty()
            =~= spec_pairs("HSET", key, taken, false));
    }
}

/// The stream form of a hash under `key`: the type tag, the key, the number
/// of pairs, and the fields and values in turn.
pub open spec fn enc_hash(key: Seq<u8>, items: Seq<Seq<u8>>) -> Seq<u8> {
    seq![RdbTypeHash] + enc_string(key) + enc_len((items.len() / 2) as u32) + enc_strings(items)
}

/// The commands of the first entry of a hash: where the dump of an entry
/// holds the number `n` of pairs of a hash and the first `c` of them, at
/// least one if there is any, and the entry counts `c` members or, holding
/// all, none, the commands that rebuild it set the fields of these pairs.
pub proof fn lemma_first_part_commands(e: EntryView, taken: Seq<Seq<u8>>, n: int, c: int)
    requires
        0 <= c <= n <= u32::MAX,
        n > 0 ==> c > 0,
        all_fit(taken),
        taken.len() == 2 * c,
        e.Type == RdbTypeHash,
        e.NeedReadLen == 1,
        e.RealMemberCount == (if c == n {
            0
        } else {
            c
        }),
        e.Value == spec_value_dump(RdbTypeHash, enc_len(n as u32) + enc_strings(taken)),
    ensures
        spec_big_commands(e) == Ok::<Seq<Seq<ArgView>>, RdbError>(
            spec_pairs("HSET", e.Key, taken, false),
        ),
{
    let count_bytes = enc_len(n as u32);
    let payload = count_bytes + enc_strings(taken);
    lemma_dump_layout(RdbTypeHash, payload);
    lemma_has_at_split(e.Value, 1, count_bytes, enc_strings(taken));
    lemma_len_round_trip(e.Value, 1, n as u32);
    lemma_strings_round_trip(e.Value, 1 + count_bytes.len() as int, taken, 0);
    assert(spec_hash_commands(e, 1) == Ok::<Seq<Seq<ArgView>>, RdbError>(
        spec_pairs("HSET", e.Key, taken, false),
    ));
}

/// A hash comes out whole, in however many entries it is handed out. Where
/// the decoder stands at a hash of `n` pairs, every entry that it hands out
/// for the hash carries the key; where there are several, their member counts
/// add up to `n`, and where there is one, it counts no members; and the
/// commands that rebuild the entries member by member set exactly the fields
/// of the hash, in their order.
#[verifier::rlimit(40)]
pub proof fn lemma_hash_in_parts(l: LoaderView, key: Seq<u8>, items: Seq<Seq<u8>>, n: int)
    requires
        l.wf(),
        l.reader.remainMember == 0,
        key.len() <= u32::MAX,
        0 <= n <= u32::MAX,
        all_fit(items),
        items.len() == 2 * n,
        has_at(l.reader.raw, l.reader.nread, enc_hash(key, items)),
    ensures
        spec_parts(l).len() >= 1,
        forall|k: int|
            0 <= k < spec_parts(l).len() ==> (#[trigger] spec_parts(l)[k]).Key == key
                && spec_parts(l)[k].Type == RdbTypeHash && spec_parts(l)[k].DB == l.db,
        spec_parts(l).len() >= 2 ==> sum_counts(spec_parts(l)) == n,
        spec_parts(l).len() == 1 ==> spec_parts(l)[0].RealMemberCount == 0,
        spec_parts_commands(spec_parts(l)) == Ok::<Seq<Seq<ArgView>>, RdbError>(
            spec_pairs("HSET", key, items, false),
        ),
{
    let rd = l.reader;
    let raw = rd.raw;
    let pos = rd.nread;
    let tag = seq![RdbTypeHash];
    let count_bytes = enc_len(n as u32);
    // where the pieces stand
    lemma_has_at_split(raw, pos, tag + enc_string(key) + count_bytes, enc_strings(items));
    lemma_has_at_split(raw, pos, tag + enc_string(key), count_bytes);
    lemma_has_at_split(raw, pos, tag, enc_string(key));
    assert(raw[pos] == RdbTypeHash) by {
        assert(raw.subrange(pos, pos + 1)[0] == tag[0]);
    }
    let at1 = pos + 1;
    lemma_string_round_trip(raw, at1, key);
    let at2 = at1 + enc_string(key).len();
    lemma_len_round_trip(raw, at2, n as u32);
    let at3 = at2 + count_bytes.len();
    assert(items.subrange(0, 2 * n) =~= items);
    lemma_hash_members(raw, at3, items, n, 0, at3 - at2);
    let got = spec_hash_members(raw, at3, n as nat, 0, at3 - at2)->Ok_0;
    let next = got.0;
    let c = got.1 as int;
    let taken = items.subrange(0, 2 * c);
    let span = spec_hash_span(raw, at3, n as u32, n as u32, at3 - at2)->Ok_0;
    assert(spec_object(raw, at2, RdbTypeHash, 0, 0, 0) == Ok::<
        crate::object::ObjectSpan,
        RdbError,
    >(span));
    assert(spec_u8(raw, pos) == Ok::<(u8, int), RdbError>((RdbTypeHash, at1)));
    let blank = blank_entry();
    lemma_next_value(l, blank, RdbTypeHash, key, span);
    let step = spec_next(l, blank);
    let e = step.entry;
    // the bytes of the entry are the count and the pairs taken
    lemma_enc_strings_concat(taken, items.subrange(2 * c, 2 * n));
    assert(taken + items.subrange(2 * c, 2 * n) =~= items);
    lemma_has_at_split(raw, at3, enc_strings(taken), enc_strings(items.subrange(2 * c, 2 * n)));
    lemma_has_at_join(raw, at2, count_bytes, enc_strings(taken));
    let payload = raw.subrange(at2, next);
    assert(payload == count_bytes + enc_strings(taken));
    assert(all_fit(taken)) by {
        assert forall|k: int| 0 <= k < taken.len() implies (#[trigger] taken[k]).len()
            <= u32::MAX by {
            assert(taken[k] == items[k]);
        }
    }
    lemma_first_part_commands(e, taken, n, c);
    lemma_next_advances(l, blank);
    let parts = spec_parts(l);
    if step.loader.reader.remainMember != 0 {
        let rest_items = items.subrange(2 * c, 2 * n);
        lemma_hash_rest(step.loader, key, items, n, c);
        let tail = spec_parts(step.loader);
        assert(parts == seq![e] + tail);
        assert(parts.skip(1) =~= tail);
        assert(parts[0] == e);
        assert forall|k: int| 0 <= k < parts.len() implies (#[trigger] parts[k]).Key == key
            && parts[k].Type == RdbTypeHash && parts[k].DB == l.db by {
            if k > 0 {
                assert(parts[k] == tail[k - 1]);
            }
        }
        lemma_pairs_concat("HSET", key, taken, rest_items);
    } else {
        assert(parts == seq![e]);
        assert(parts.skip(1) =~= Seq::<EntryView>::empty());
        assert(spec_parts_commands(parts.skip(1)) == Ok::<Seq<Seq<ArgView>>, RdbError>(
            Seq::empty(),
        ));
        assert(taken =~= items);
        assert(spec_pairs("HSET", key, taken, false) + Seq::<Seq<ArgView>>::empty()
            =~= spec_pairs("HSET", key, taken, false));
    }
}

} // verus!
