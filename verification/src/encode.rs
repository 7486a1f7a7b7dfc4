//! The snapshot format written down: how lengths, strings and values are
//! encoded, and the proof that the decoder reads every encoded value back as
//! it was.
use crate::errors::RdbError;
use crate::members::{spec_item, spec_items, ItemKind};
use crate::object::spec_skip_strings;
use crate::wire::{
    spec_encoded_length,
    spec_length,
    spec_string,
    spec_take,
    spec_u32_be,
    spec_u8,
};
use vstd::prelude::*;

verus! {

/// Whether the bytes `enc` stand in `raw` at `pos`.
pub open spec fn has_at(raw: Seq<u8>, pos: int, enc: Seq<u8>) -> bool {
    0 <= pos && pos + enc.len() <= raw.len() && raw.subrange(pos, pos + enc.len()) == enc
}

/// The length `n` written in the shortest of the 6-bit, 14-bit and 32-bit
/// forms.
pub open spec fn enc_len(n: u32) -> Seq<u8> {
    if n < 64 {
        seq![n as u8]
    } else if n < 16384 {
        seq![(64 + n / 256) as u8, (n % 256) as u8]
    } else {
        seq![
            0x80u8,
            (n / 0x100_0000) as u8,
            (n / 0x1_0000 % 256) as u8,
            (n / 0x100 % 256) as u8,
            (n % 256) as u8,
        ]
    }
}

/// The string `s` written as its length and its bytes.
pub open spec fn enc_string(s: Seq<u8>) -> Seq<u8> {
    enc_len(s.len() as u32) + s
}

/// The strings `items` written one after the other.
pub open spec fn enc_strings(items: Seq<Seq<u8>>) -> Seq<u8>
    decreases items.len(),
{
    if items.len() == 0 {
        Seq::empty()
    } else {
        enc_string(items[0]) + enc_strings(items.skip(1))
    }
}

/// Whether every string of `items` is short enough to be written.
pub open spec fn all_fit(items: Seq<Seq<u8>>) -> bool {
    forall|k: int| 0 <= k < items.len() ==> (#[trigger] items[k]).len() <= u32::MAX
}

/// Bytes that stand in `raw` stand there piece by piece.
pub proof fn lemma_has_at_split(raw: Seq<u8>, pos: int, a: Seq<u8>, b: Seq<u8>)
    requires
        has_at(raw, pos, a + b),
    ensures
        has_at(raw, pos, a),
        has_at(raw, pos + a.len(), b),
{
    let whole = raw.subrange(pos, pos + (a + b).len());
    assert(raw.subrange(pos, pos + a.len()) =~= whole.subrange(0, a.len() as int));
    assert(whole.subrange(0, a.len() as int) =~= a);
    assert(raw.subrange(pos + a.len(), pos + a.len() + b.len()) =~= whole.subrange(
        a.len() as int,
        (a + b).len() as int,
    ));
    assert(whole.subrange(a.len() as int, (a + b).len() as int) =~= b);
}

/// Pieces that stand in `raw` one behind the other stand there as a whole.
pub proof fn lemma_has_at_join(raw: Seq<u8>, pos: int, a: Seq<u8>, b: Seq<u8>)
    requires
        has_at(raw, pos, a),
        has_at(raw, pos + a.len(), b),
    ensures
        has_at(raw, pos, a + b),
{
    assert(raw.subrange(pos, pos + (a + b).len()) =~= raw.subrange(pos, pos + a.len())
        + raw.subrange(pos + a.len(), pos + a.len() + b.len()));
}

/// A written length is read back.
pub proof fn lemma_len_round_trip(raw: Seq<u8>, pos: int, n: u32)
    requires
        has_at(raw, pos, enc_len(n)),
    ensures
        spec_encoded_length(raw, pos) == Ok::<((u32, bool), int), RdbError>(
            ((n, false), pos + enc_len(n).len()),
        ),
        spec_length(raw, pos) == Ok::<(u32, int), RdbError>((n, pos + enc_len(n).len())),
        1 <= enc_len(n).len() <= 5,
{
    reveal(spec_encoded_length);
    let enc = enc_len(n);
    let got = raw.subrange(pos, pos + enc.len());
    assert forall|k: int| 0 <= k < enc.len() implies raw[pos + k] == enc[k] by {
        assert(got[k] == enc[k]);
    }
    assert(raw[pos] == enc[0]);
    if n < 64 {
    } else if n < 16384 {
        assert(raw[pos + 1] == enc[1]);
    } else {
        let b = raw.subrange(pos + 1, pos + 5);
        assert(b[0] == enc[1] && b[1] == enc[2] && b[2] == enc[3] && b[3] == enc[4]);
    }
}

/// A written string is read back.
pub proof fn lemma_string_round_trip(raw: Seq<u8>, pos: int, s: Seq<u8>)
    requires
        s.len() <= u32::MAX,
        has_at(raw, pos, enc_string(s)),
    ensures
        spec_string(raw, pos) == Ok::<(Seq<u8>, int), RdbError>((s, pos + enc_string(s).len())),
{
    reveal(spec_string);
    let n = s.len() as u32;
    lemma_has_at_split(raw, pos, enc_len(n), s);
    lemma_len_round_trip(raw, pos, n);
}

/// Written strings are read back one by one, and are passed over as a
/// whole.
pub proof fn lemma_strings_round_trip(raw: Seq<u8>, pos: int, items: Seq<Seq<u8>>, index: nat)
    requires
        all_fit(items),
        has_at(raw, pos, enc_strings(items)),
    ensures
        spec_items(raw, pos, ItemKind::Str, index, items.len()) == Ok::<
            (Seq<Seq<u8>>, int),
            RdbError,
        >((items, pos + enc_strings(items).len())),
        spec_skip_strings(raw, pos, items.len()) == Ok::<int, RdbError>(
            pos + enc_strings(items).len(),
        ),
    decreases items.len(),
{
    if items.len() == 0 {
        assert(items =~= Seq::<Seq<u8>>::empty());
    } else {
        let first = items[0];
        let rest = items.skip(1);
        lemma_has_at_split(raw, pos, enc_string(first), enc_strings(rest));
        lemma_string_round_trip(raw, pos, first);
        assert(all_fit(rest)) by {
            assert forall|k: int| 0 <= k < rest.len() implies (#[trigger] rest[k]).len()
                <= u32::MAX by {
                assert(rest[k] == items[k + 1]);
            }
        }
        lemma_strings_round_trip(raw, pos + enc_string(first).len(), rest, index + 1);
        assert(seq![first] + rest =~= items);
    }
}

} // verus!
