//! The packed encodings written down: ziplists, zipmaps and intsets, and the
//! proof that their members are read back as they were written.
use crate::decimal::dec_text;
use crate::encode::{has_at, lemma_has_at_split};
use crate::endian::{
    le_bytes_u16,
    le_bytes_u32,
    le_bytes_u64,
    lemma_le_u32_round_trip,
    lemma_le_u64_round_trip,
};
use crate::errors::RdbError;
use crate::members::{
    int_kind,
    spec_intset_members,
    spec_item,
    spec_items,
    spec_ziplist_members,
    spec_zipmap_members,
    ItemKind,
};
use crate::packed::{
    spec_count_zipmap_items,
    spec_int_text,
    spec_intset_header,
    spec_ziplist_entry,
    spec_ziplist_length,
    spec_zipmap_item,
    spec_zipmap_item_length,
};
use crate::wire::{spec_take, spec_u8};
use vstd::prelude::*;

verus! {

/// The number `v` as `width` bytes in two's complement, least significant
/// byte first, for a width of 1, 2, 3, 4 or 8.
pub open spec fn le_signed(v: int, width: int) -> Seq<u8> {
    if width == 1 {
        let u = if v < 0 {
            v + 0x100
        } else {
            v
        };
        seq![u as u8]
    } else if width == 2 {
        let u = if v < 0 {
            v + 0x1_0000
        } else {
            v
        };
        le_bytes_u16(u as u16)
    } else if width == 3 {
        let u = if v < 0 {
            v + 0x100_0000
        } else {
            v
        };
        seq![(u % 0x100) as u8, (u / 0x100 % 0x100) as u8, (u / 0x1_0000) as u8]
    } else if width == 4 {
        let u = if v < 0 {
            v + 0x1_0000_0000
        } else {
            v
        };
        le_bytes_u32(u as u32)
    } else {
        let u = if v < 0 {
            v + 0x1_0000_0000_0000_0000
        } else {
            v
        };
        le_bytes_u64(u as u64)
    }
}

/// Whether `v` can be written in `width` bytes.
pub open spec fn signed_fits(v: int, width: int) -> bool {
    if width == 1 {
        -0x80 <= v < 0x80
    } else if width == 2 {
        -0x8000 <= v < 0x8000
    } else if width == 3 {
        -0x80_0000 <= v < 0x80_0000
    } else if width == 4 {
        -0x8000_0000 <= v < 0x8000_0000
    } else {
        width == 8 && -0x8000_0000_0000_0000 <= v < 0x8000_0000_0000_0000
    }
}

/// A written integer is read back as its decimal text.
pub proof fn lemma_int_round_trip(raw: Seq<u8>, pos: int, v: int, width: int)
    requires
        signed_fits(v, width),
        has_at(raw, pos, le_signed(v, width)),
    ensures
        le_signed(v, width).len() == width,
        spec_int_text(raw, pos, width) == Ok::<(Seq<u8>, int), RdbError>(
            (dec_text(v), pos + width),
        ),
{
    reveal(spec_int_text);
    let enc = le_signed(v, width);
    let b = raw.subrange(pos, pos + enc.len());
    assert(b == enc);
    if width == 4 {
        let u = if v < 0 {
            v + 0x1_0000_0000
        } else {
            v
        };
        lemma_le_u32_round_trip(u as u32);
    } else if width == 8 {
        let u = if v < 0 {
            v + 0x1_0000_0000_0000_0000
        } else {
            v
        };
        lemma_le_u64_round_trip(u as u64);
    }
}

/// The field that begins a ziplist entry: the length of the entry before
/// it, in one byte below 254 or in four bytes behind the byte 254.
pub open spec fn prev_ok(prev: Seq<u8>) -> bool {
    (prev.len() == 1 && prev[0] < 254) || (prev.len() == 5 && prev[0] == 254)
}

/// An entry of a ziplist.
pub enum ZlEntry {
    /// A string.
    Str { prev: Seq<u8>, s: Seq<u8> },
    /// An integer in 1, 2, 3, 4 or 8 bytes.
    Int { prev: Seq<u8>, width: int, v: int },
    /// An integer from 0 to 12 in the header byte.
    Small { prev: Seq<u8>, v: int },
}

impl ZlEntry {
    /// Whether the entry can be written.
    pub open spec fn fits(self) -> bool {
        match self {
            ZlEntry::Str { prev, s } => prev_ok(prev) && s.len() <= u32::MAX,
            ZlEntry::Int { prev, width, v } => prev_ok(prev) && signed_fits(v, width),
            ZlEntry::Small { prev, v } => prev_ok(prev) && 0 <= v <= 12,
        }
    }

    /// The bytes that the entry is written as.
    pub open spec fn encoded(self) -> Seq<u8> {
        match self {
            ZlEntry::Str { prev, s } => prev + (if s.len() < 64 {
                seq![s.len() as u8]
            } else if s.len() < 16384 {
                seq![(64 + s.len() / 256) as u8, (s.len() % 256) as u8]
            } else {
                seq![
                    0x80u8,
                    (s.len() / 0x100_0000) as u8,
                    (s.len() / 0x1_0000 % 256) as u8,
                    (s.len() / 0x100 % 256) as u8,
                    (s.len() % 256) as u8,
                ]
            }) + s,
            ZlEntry::Int { prev, width, v } => prev + seq![
                if width == 1 {
                    0xfeu8
                } else if width == 2 {
                    0xc0u8
                } else if width == 3 {
                    0xf0u8
                } else if width == 4 {
                    0xd0u8
                } else {
                    0xe0u8
                },
            ] + le_signed(v, width),
            ZlEntry::Small { prev, v } => prev + seq![(0xf1 + v) as u8],
        }
    }

    /// What the entry is read as: the string, or the decimal text of the
    /// integer.
    pub open spec fn member(self) -> Seq<u8> {
        match self {
            ZlEntry::Str { prev, s } => s,
            ZlEntry::Int { prev, width, v } => dec_text(v),
            ZlEntry::Small { prev, v } => dec_text(v),
        }
    }
}

/// A written ziplist entry is read back.
pub proof fn lemma_zl_entry_round_trip(raw: Seq<u8>, pos: int, e: ZlEntry)
    requires
        e.fits(),
        has_at(raw, pos, e.encoded()),
    ensures
        spec_ziplist_entry(raw, pos) == Ok::<(Seq<u8>, int), RdbError>(
            (e.member(), pos + e.encoded().len()),
        ),
{
    reveal(spec_ziplist_entry);
    let enc = e.encoded();
    let got = raw.subrange(pos, pos + enc.len());
    assert forall|k: int| 0 <= k < enc.len() implies raw[pos + k] == enc[k] by {
        assert(got[k] == enc[k]);
    }
    match e {
        ZlEntry::Str { prev, s } => {
            let head: Seq<u8> = if s.len() < 64 {
                seq![s.len() as u8]
            } else if s.len() < 16384 {
                seq![(64 + s.len() / 256) as u8, (s.len() % 256) as u8]
            } else {
                seq![
                    0x80u8,
                    (s.len() / 0x100_0000) as u8,
                    (s.len() / 0x1_0000 % 256) as u8,
                    (s.len() / 0x100 % 256) as u8,
                    (s.len() % 256) as u8,
                ]
            };
            assert(enc == prev + head + s);
            lemma_has_at_split(raw, pos, prev + head, s);
            lemma_has_at_split(raw, pos, prev, head);
            let at2 = pos + prev.len();
            assert(raw[pos] == prev[0]) by {
                assert(enc[0] == prev[0]);
            }
            assert forall|k: int| 0 <= k < head.len() implies raw[at2 + k] == head[k] by {
                assert(raw.subrange(at2, at2 + head.len())[k] == head[k]);
            }
            assert(raw[at2] == head[0]);
            if s.len() < 64 {
            } else if s.len() < 16384 {
                assert(raw[at2 + 1] == head[1]);
            } else {
                let lb = raw.subrange(at2 + 1, at2 + 5);
                assert(lb[0] == head[1] && lb[1] == head[2] && lb[2] == head[3] && lb[3]
                    == head[4]);
            }
        },
        ZlEntry::Int { prev, width, v } => {
            let tag: Seq<u8> = seq![
                if width == 1 {
                    0xfeu8
                } else if width == 2 {
                    0xc0u8
                } else if width == 3 {
                    0xf0u8
                } else if width == 4 {
                    0xd0u8
                } else {
                    0xe0u8
                },
            ];
            assert(enc == prev + tag + le_signed(v, width));
            lemma_has_at_split(raw, pos, prev + tag, le_signed(v, width));
            lemma_has_at_split(raw, pos, prev, tag);
            let at2 = pos + prev.len();
            assert(raw[pos] == prev[0]) by {
                assert(enc[0] == prev[0]);
            }
            assert(raw[at2] == tag[0]) by {
                assert(raw.subrange(at2, at2 + 1)[0] == tag[0]);
            }
            lemma_int_round_trip(raw, at2 + 1, v, width);
        },
        ZlEntry::Small { prev, v } => {
            let tag: Seq<u8> = seq![(0xf1 + v) as u8];
            assert(enc == prev + tag);
            lemma_has_at_split(raw, pos, prev, tag);
            let at2 = pos + prev.len();
            assert(raw[pos] == prev[0]) by {
                assert(enc[0] == prev[0]);
            }
            assert(raw[at2] == tag[0]) by {
                assert(raw.subrange(at2, at2 + 1)[0] == tag[0]);
            }
        },
    }
}

/// The entries `entries` written one after the other.
pub open spec fn enc_zl_entries(entries: Seq<ZlEntry>) -> Seq<u8>
    decreases entries.len(),
{
    if entries.len() == 0 {
        Seq::empty()
    } else {
        entries[0].encoded() + enc_zl_entries(entries.skip(1))
    }
}

/// What the entries `entries` are read as.
pub open spec fn zl_members(entries: Seq<ZlEntry>) -> Seq<Seq<u8>> {
    Seq::new(entries.len(), |i: int| entries[i].member())
}

/// Whether every entry of `entries` can be written.
pub open spec fn zl_all_fit(entries: Seq<ZlEntry>) -> bool {
    forall|k: int| 0 <= k < entries.len() ==> (#[trigger] entries[k]).fits()
}

/// A ziplist: eight bytes of sizes that reading does not look at, the
/// number of entries in two bytes, the entries, and the end marker.
pub open spec fn enc_ziplist(sizes: Seq<u8>, entries: Seq<ZlEntry>) -> Seq<u8> {
    sizes + le_bytes_u16(entries.len() as u16) + enc_zl_entries(entries) + seq![0xffu8]
}

/// Written ziplist entries are read back one by one.
pub proof fn lemma_zl_entries_round_trip(
    raw: Seq<u8>,
    pos: int,
    entries: Seq<ZlEntry>,
    index: nat,
)
    requires
        zl_all_fit(entries),
        has_at(raw, pos, enc_zl_entries(entries)),
    ensures
        spec_items(raw, pos, ItemKind::Ziplist, index, entries.len()) == Ok::<
            (Seq<Seq<u8>>, int),
            RdbError,
        >((zl_members(entries), pos + enc_zl_entries(entries).len())),
    decreases entries.len(),
{
    if entries.len() == 0 {
        assert(zl_members(entries) =~= Seq::<Seq<u8>>::empty());
    } else {
        let first = entries[0];
        let rest = entries.skip(1);
        lemma_has_at_split(raw, pos, first.encoded(), enc_zl_entries(rest));
        lemma_zl_entry_round_trip(raw, pos, first);
        assert(zl_all_fit(rest)) by {
            assert forall|k: int| 0 <= k < rest.len() implies (#[trigger] rest[k]).fits() by {
                assert(rest[k] == entries[k + 1]);
            }
        }
        lemma_zl_entries_round_trip(raw, pos + first.encoded().len(), rest, index + 1);
        assert(seq![first.member()] + zl_members(rest) =~= zl_members(entries));
    }
}

/// The entries of a written ziplist are read back: all of them, where there
/// are no more than 16 bits count; where pairs are asked for, all of an even
/// number of entries.
pub proof fn lemma_ziplist_round_trip(sizes: Seq<u8>, entries: Seq<ZlEntry>, pairs: bool)
    requires
        sizes.len() == 8,
        entries.len() <= 0xffff,
        zl_all_fit(entries),
        pairs ==> entries.len() % 2 == 0,
    ensures
        spec_ziplist_members(enc_ziplist(sizes, entries), pairs) == Ok::<
            Seq<Seq<u8>>,
            RdbError,
        >(zl_members(entries)),
{
    let zl = enc_ziplist(sizes, entries);
    let count = le_bytes_u16(entries.len() as u16);
    assert(zl.subrange(8, 10) =~= count);
    assert(has_at(zl, 10, enc_zl_entries(entries))) by {
        assert(zl.subrange(10, 10 + enc_zl_entries(entries).len() as int) =~= enc_zl_entries(entries));
    }
    lemma_zl_entries_round_trip(zl, 10, entries, 0);
}

/// An intset: the width of its members and their number, in four bytes
/// each, and the members in two's complement.
pub open spec fn enc_intset(width: int, values: Seq<int>) -> Seq<u8> {
    le_bytes_u32(width as u32) + le_bytes_u32(values.len() as u32) + enc_ints(width, values)
}

/// The numbers `values` written one after the other in `width` bytes each.
pub open spec fn enc_ints(width: int, values: Seq<int>) -> Seq<u8>
    decreases values.len(),
{
    if values.len() == 0 {
        Seq::empty()
    } else {
        le_signed(values[0], width) + enc_ints(width, values.skip(1))
    }
}

/// The decimal texts of the numbers `values`.
pub open spec fn int_members(values: Seq<int>) -> Seq<Seq<u8>> {
    Seq::new(values.len(), |i: int| dec_text(values[i]))
}

/// Written integers are read back one by one.
pub proof fn lemma_ints_round_trip(
    raw: Seq<u8>,
    pos: int,
    width: int,
    values: Seq<int>,
    index: nat,
)
    requires
        width == 2 || width == 4 || width == 8,
        forall|k: int| 0 <= k < values.len() ==> signed_fits(#[trigger] values[k], width),
        has_at(raw, pos, enc_ints(width, values)),
    ensures
        spec_items(raw, pos, int_kind(width as u32), index, values.len()) == Ok::<
            (Seq<Seq<u8>>, int),
            RdbError,
        >((int_members(values), pos + enc_ints(width, values).len())),
    decreases values.len(),
{
    if values.len() == 0 {
        assert(int_members(values) =~= Seq::<Seq<u8>>::empty());
    } else {
        let first = values[0];
        let rest = values.skip(1);
        lemma_has_at_split(raw, pos, le_signed(first, width), enc_ints(width, rest));
        lemma_int_round_trip(raw, pos, first, width);
        assert forall|k: int| 0 <= k < rest.len() implies signed_fits(
            #[trigger] rest[k],
            width,
        ) by {
            assert(rest[k] == values[k + 1]);
        }
        lemma_ints_round_trip(raw, pos + width, width, rest, index + 1);
        assert(seq![dec_text(first)] + int_members(rest) =~= int_members(values));
    }
}

/// The members of a written intset are read back as their decimal texts.
pub proof fn lemma_intset_round_trip(width: int, values: Seq<int>)
    requires
        width == 2 || width == 4 || width == 8,
        values.len() <= u32::MAX,
        forall|k: int| 0 <= k < values.len() ==> signed_fits(#[trigger] values[k], width),
    ensures
        spec_intset_members(enc_intset(width, values)) == Ok::<Seq<Seq<u8>>, RdbError>(
            int_members(values),
        ),
{
    let set = enc_intset(width, values);
    lemma_le_u32_round_trip(width as u32);
    lemma_le_u32_round_trip(values.len() as u32);
    assert(set.subrange(0, 4) =~= le_bytes_u32(width as u32));
    assert(set.subrange(4, 8) =~= le_bytes_u32(values.len() as u32));
    assert(has_at(set, 8, enc_ints(width, values))) by {
        assert(set.subrange(8, 8 + enc_ints(width, values).len() as int) =~= enc_ints(width, values));
    }
    lemma_ints_round_trip(set, 8, width, values, 0);
}

/// A field of a zipmap and its value, with the unused bytes that follow the
/// value.
pub struct ZmPair {
    pub field: Seq<u8>,
    pub value: Seq<u8>,
    pub unused: Seq<u8>,
}

impl ZmPair {
    /// Whether the pair can be written with lengths of one byte.
    pub open spec fn fits(self) -> bool {
        self.field.len() < 253 && self.value.len() < 253 && self.unused.len() < 256
    }

    /// The bytes that the field is written as: its length and its bytes.
    pub open spec fn field_bytes(self) -> Seq<u8> {
        seq![self.field.len() as u8] + self.field
    }

    /// The bytes that the value is written as: its length, the number of
    /// unused bytes, its bytes, and the unused bytes.
    pub open spec fn value_bytes(self) -> Seq<u8> {
        seq![self.value.len() as u8, self.unused.len() as u8] + self.value + self.unused
    }

    /// The bytes that the pair is written as.
    pub open spec fn encoded(self) -> Seq<u8> {
        self.field_bytes() + self.value_bytes()
    }
}

/// The pairs `pairs` written one after the other.
pub open spec fn enc_zm_pairs(pairs: Seq<ZmPair>) -> Seq<u8>
    decreases pairs.len(),
{
    if pairs.len() == 0 {
        Seq::empty()
    } else {
        pairs[0].encoded() + enc_zm_pairs(pairs.skip(1))
    }
}

/// The fields and values of `pairs`, in turn.
pub open spec fn zm_members(pairs: Seq<ZmPair>) -> Seq<Seq<u8>> {
    Seq::new(
        2 * pairs.len(),
        |i: int|
            if i % 2 == 0 {
                pairs[i / 2].field
            } else {
                pairs[i / 2].value
            },
    )
}

/// Whether every pair of `pairs` can be written.
pub open spec fn zm_all_fit(pairs: Seq<ZmPair>) -> bool {
    forall|k: int| 0 <= k < pairs.len() ==> (#[trigger] pairs[k]).fits()
}

/// A zipmap: a byte that holds the number of pairs, or from 254 on the
/// demand to count them, the pairs, and the end marker.
pub open spec fn enc_zipmap(len_byte: u8, pairs: Seq<ZmPair>) -> Seq<u8> {
    seq![len_byte] + enc_zm_pairs(pairs) + seq![0xffu8]
}

/// A written pair is read back as its field and its value.
pub proof fn lemma_zm_pair_round_trip(raw: Seq<u8>, pos: int, p: ZmPair)
    requires
        p.fits(),
        has_at(raw, pos, p.encoded()),
    ensures
        spec_zipmap_item(raw, pos, false) == Ok::<(Seq<u8>, int), RdbError>(
            (p.field, pos + p.field_bytes().len()),
        ),
        spec_zipmap_item(raw, pos + p.field_bytes().len(), true) == Ok::<
            (Seq<u8>, int),
            RdbError,
        >((p.value, pos + p.encoded().len())),
        spec_zipmap_item_length(raw, pos, false) == Ok::<((i32, i32), int), RdbError>(
            ((p.field.len() as i32, 0i32), pos + 1),
        ),
        spec_zipmap_item_length(raw, pos + p.field_bytes().len(), true) == Ok::<
            ((i32, i32), int),
            RdbError,
        >(((p.value.len() as i32, p.unused.len() as i32), pos + p.field_bytes().len() + 2)),
{
    reveal(spec_zipmap_item_length);
    lemma_has_at_split(raw, pos, p.field_bytes(), p.value_bytes());
    lemma_has_at_split(raw, pos, seq![p.field.len() as u8], p.field);
    assert(raw[pos] == p.field.len() as u8) by {
        assert(raw.subrange(pos, pos + 1)[0] == p.field.len() as u8);
    }
    let q = pos + p.field_bytes().len();
    let head = seq![p.value.len() as u8, p.unused.len() as u8];
    lemma_has_at_split(raw, q, head + p.value, p.unused);
    lemma_has_at_split(raw, q, head, p.value);
    assert(raw[q] == head[0] && raw[q + 1] == head[1]) by {
        assert(raw.subrange(q, q + 2)[0] == head[0]);
        assert(raw.subrange(q, q + 2)[1] == head[1]);
    }
}

/// Written pairs are read back as their fields and values in turn, and are
/// counted as two items each.
pub proof fn lemma_zm_pairs_round_trip(raw: Seq<u8>, pos: int, pairs: Seq<ZmPair>, index: nat)
    requires
        zm_all_fit(pairs),
        index % 2 == 0,
        has_at(raw, pos, enc_zm_pairs(pairs)),
    ensures
        spec_items(raw, pos, ItemKind::Zipmap, index, 2 * pairs.len()) == Ok::<
            (Seq<Seq<u8>>, int),
            RdbError,
        >((zm_members(pairs), pos + enc_zm_pairs(pairs).len())),
    decreases pairs.len(),
{
    if pairs.len() == 0 {
        assert(zm_members(pairs) =~= Seq::<Seq<u8>>::empty());
    } else {
        let first = pairs[0];
        let rest = pairs.skip(1);
        lemma_has_at_split(raw, pos, first.encoded(), enc_zm_pairs(rest));
        lemma_zm_pair_round_trip(raw, pos, first);
        assert(zm_all_fit(rest)) by {
            assert forall|k: int| 0 <= k < rest.len() implies (#[trigger] rest[k]).fits() by {
                assert(rest[k] == pairs[k + 1]);
            }
        }
        let at1 = pos + first.field_bytes().len();
        let at2 = pos + first.encoded().len();
        lemma_zm_pairs_round_trip(raw, at2, rest, index + 2);
        let tail = zm_members(rest);
        let count = (2 * pairs.len()) as nat;
        assert(spec_item(raw, pos, ItemKind::Zipmap, index) == Ok::<(Seq<u8>, int), RdbError>(
            (first.field, at1),
        ));
        assert(spec_item(raw, at1, ItemKind::Zipmap, index + 1) == Ok::<(Seq<u8>, int), RdbError>(
            (first.value, at2),
        ));
        assert(spec_items(raw, at1, ItemKind::Zipmap, index + 1, (count - 1) as nat) == Ok::<
            (Seq<Seq<u8>>, int),
            RdbError,
        >((seq![first.value] + tail, at2 + enc_zm_pairs(rest).len())));
        assert(seq![first.field] + (seq![first.value] + tail) =~= zm_members(pairs)) by {
            let whole = zm_members(pairs);
            let built = seq![first.field] + (seq![first.value] + tail);
            assert(built.len() == whole.len());
            assert forall|i: int| 0 <= i < whole.len() implies built[i] == whole[i] by {
                if i >= 2 {
                    assert(built[i] == tail[i - 2]);
                    assert(rest[(i - 2) / 2] == pairs[i / 2]);
                }
            }
        }
    }
}

/// Written pairs are counted as two items each.
pub proof fn lemma_zm_pairs_counted(raw: Seq<u8>, pos: int, pairs: Seq<ZmPair>, n: int)
    requires
        zm_all_fit(pairs),
        0 <= n,
        n % 2 == 0,
        n + 2 * pairs.len() <= i32::MAX,
        has_at(raw, pos, enc_zm_pairs(pairs) + seq![0xffu8]),
    ensures
        spec_count_zipmap_items(raw, pos, n) == Ok::<int, RdbError>(n + 2 * pairs.len()),
    decreases pairs.len(),
{
    reveal(spec_zipmap_item_length);
    if pairs.len() == 0 {
        assert(raw[pos] == 0xff) by {
            assert(raw.subrange(pos, pos + 1)[0] == 0xff);
        }
    } else {
        let first = pairs[0];
        let rest = pairs.skip(1);
        assert(enc_zm_pairs(pairs) + seq![0xffu8] =~= first.encoded() + (enc_zm_pairs(rest)
            + seq![0xffu8]));
        lemma_has_at_split(raw, pos, first.encoded(), enc_zm_pairs(rest) + seq![0xffu8]);
        lemma_zm_pair_round_trip(raw, pos, first);
        assert(zm_all_fit(rest)) by {
            assert forall|k: int| 0 <= k < rest.len() implies (#[trigger] rest[k]).fits() by {
                assert(rest[k] == pairs[k + 1]);
            }
        }
        let at1 = pos + first.field_bytes().len();
        let at2 = pos + first.encoded().len();
        lemma_has_at_split(raw, pos, first.field_bytes(), first.value_bytes());
        lemma_zm_pairs_counted(raw, at2, rest, n + 2);
        assert(spec_count_zipmap_items(raw, at1, n + 1) == Ok::<int, RdbError>(
            n + 2 * pairs.len(),
        ));
    }
}

/// The fields and values of a written zipmap are read back, whether its
/// first byte holds the number of its pairs or asks to count them.
pub proof fn lemma_zipmap_round_trip(len_byte: u8, pairs: Seq<ZmPair>)
    requires
        zm_all_fit(pairs),
        2 * pairs.len() <= i32::MAX,
        len_byte < 254 ==> len_byte == pairs.len(),
    ensures
        spec_zipmap_members(enc_zipmap(len_byte, pairs)) == Ok::<Seq<Seq<u8>>, RdbError>(
            zm_members(pairs),
        ),
{
    let zm = enc_zipmap(len_byte, pairs);
    let body = enc_zm_pairs(pairs);
    assert(zm[0] == len_byte);
    assert(has_at(zm, 1, body + seq![0xffu8])) by {
        assert(zm.subrange(1, 1 + (body + seq![0xffu8]).len() as int) =~= body + seq![0xffu8]);
    }
    lemma_has_at_split(zm, 1, body, seq![0xffu8]);
    lemma_zm_pairs_round_trip(zm, 1, pairs, 0);
    if len_byte >= 254 {
        lemma_zm_pairs_counted(zm, 1, pairs, 0);
    }
}

} // verus!
