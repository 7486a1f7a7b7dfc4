//! Fixed-width integers as they lie in the byte stream.
use byteorder::LittleEndian;
use byteorder::WriteBytesExt;
use vstd::prelude::*;

verus! {

/// The number that two bytes hold, least significant byte first.
pub open spec fn le_u16(s: Seq<u8>) -> int {
    s[0] + s[1] * 0x100
}

/// The number that four bytes hold, least significant byte first.
pub open spec fn le_u32(s: Seq<u8>) -> int {
    s[0] + s[1] * 0x100 + s[2] * 0x1_0000 + s[3] * 0x100_0000
}

/// The number that eight bytes hold, least significant byte first.
pub open spec fn le_u64(s: Seq<u8>) -> int {
    le_u32(s.subrange(0, 4)) + le_u32(s.subrange(4, 8)) * 0x1_0000_0000
}

/// The number that four bytes hold, most significant byte first.
pub open spec fn be_u32(s: Seq<u8>) -> int {
    s[0] * 0x100_0000 + s[1] * 0x1_0000 + s[2] * 0x100 + s[3]
}

/// The number that eight bytes hold, most significant byte first.
pub open spec fn be_u64(s: Seq<u8>) -> int {
    be_u32(s.subrange(0, 4)) * 0x1_0000_0000 + be_u32(s.subrange(4, 8))
}

/// The value of `width` bytes read as a two's complement number, given their
/// value `v` as an unsigned number.
pub open spec fn as_signed(v: int, half: int) -> int {
    if v >= half {
        v - 2 * half
    } else {
        v
    }
}

/// The two bytes of `n`, least significant first.
pub open spec fn le_bytes_u16(n: u16) -> Seq<u8> {
    seq![(n % 0x100) as u8, (n / 0x100) as u8]
}

/// The four bytes of `n`, least significant first.
pub open spec fn le_bytes_u32(n: u32) -> Seq<u8> {
    seq![
        (n % 0x100) as u8,
        (n / 0x100 % 0x100) as u8,
        (n / 0x1_0000 % 0x100) as u8,
        (n / 0x100_0000) as u8,
    ]
}

/// The eight bytes of `n`, least significant first.
pub open spec fn le_bytes_u64(n: u64) -> Seq<u8> {
    le_bytes_u32((n % 0x1_0000_0000) as u32) + le_bytes_u32((n / 0x1_0000_0000) as u32)
}

/// Writing a number and reading it back gives the number.
pub proof fn lemma_le_u64_round_trip(n: u64)
    ensures
        le_bytes_u64(n).len() == 8,
        le_u64(le_bytes_u64(n)) == n,
{
    let lo = (n % 0x1_0000_0000) as u32;
    let hi = (n / 0x1_0000_0000) as u32;
    let s = le_bytes_u64(n);
    assert(s.subrange(0, 4) =~= le_bytes_u32(lo));
    assert(s.subrange(4, 8) =~= le_bytes_u32(hi));
    lemma_le_u32_round_trip(lo);
    lemma_le_u32_round_trip(hi);
}

/// Writing a number and reading it back gives the number.
pub proof fn lemma_le_u32_round_trip(n: u32)
    ensures
        le_bytes_u32(n).len() == 4,
        le_u32(le_bytes_u32(n)) == n,
{
}

/// Reads two bytes at `pos`, least significant first.
pub fn read_le_u16(raw: &Vec<u8>, pos: usize) -> (r: u16)
    requires
        pos + 2 <= raw.len(),
    ensures
        r == le_u16(raw@.subrange(pos as int, pos + 2)),
{
    raw[pos] as u16 + raw[pos + 1] as u16 * 0x100
}

/// Reads four bytes at `pos`, least significant first.
pub fn read_le_u32(raw: &Vec<u8>, pos: usize) -> (r: u32)
    requires
        pos + 4 <= raw.len(),
    ensures
        r == le_u32(raw@.subrange(pos as int, pos + 4)),
{
    raw[pos] as u32 + raw[pos + 1] as u32 * 0x100 + raw[pos + 2] as u32 * 0x1_0000 + raw[pos
        + 3] as u32 * 0x100_0000
}

/// Reads eight bytes at `pos`, least significant first.
pub fn read_le_u64(raw: &Vec<u8>, pos: usize) -> (r: u64)
    requires
        pos + 8 <= raw.len(),
    ensures
        r == le_u64(raw@.subrange(pos as int, pos + 8)),
{
    let lo: u32 = read_le_u32(raw, pos);
    let hi: u32 = read_le_u32(raw, pos + 4);
    proof {
        let s = raw@.subrange(pos as int, pos + 8);
        assert(s.subrange(0, 4) =~= raw@.subrange(pos as int, pos + 4));
        assert(s.subrange(4, 8) =~= raw@.subrange(pos + 4, pos + 8));
    }
    lo as u64 + hi as u64 * 0x1_0000_0000
}

/// Reads four bytes at `pos`, most significant first.
pub fn read_be_u32(raw: &Vec<u8>, pos: usize) -> (r: u32)
    requires
        pos + 4 <= raw.len(),
    ensures
        r == be_u32(raw@.subrange(pos as int, pos + 4)),
{
    raw[pos] as u32 * 0x100_0000 + raw[pos + 1] as u32 * 0x1_0000 + raw[pos + 2] as u32 * 0x100
        + raw[pos + 3] as u32
}

/// Reads eight bytes at `pos`, most significant first.
pub fn read_be_u64(raw: &Vec<u8>, pos: usize) -> (r: u64)
    requires
        pos + 8 <= raw.len(),
    ensures
        r == be_u64(raw@.subrange(pos as int, pos + 8)),
{
    let hi: u32 = read_be_u32(raw, pos);
    let lo: u32 = read_be_u32(raw, pos + 4);
    proof {
        let s = raw@.subrange(pos as int, pos + 8);
        assert(s.subrange(0, 4) =~= raw@.subrange(pos as int, pos + 4));
        assert(s.subrange(4, 8) =~= raw@.subrange(pos + 4, pos + 8));
    }
    hi as u64 * 0x1_0000_0000 + lo as u64
}

/// Appends `n` to `out` with `byteorder`'s `WriteBytesExt::write_u16` in
/// little-endian order. Believed: that the two bytes appended are the low byte
/// of `n` and then its high byte, and that writing to a vector does not fail.
#[verifier::external_body]
pub(crate) fn put_u16_le(out: &mut Vec<u8>, n: u16)
    ensures
        final(out)@ == old(out)@ + le_bytes_u16(n),
{
    out.write_u16::<LittleEndian>(n).unwrap();
}

/// Appends `n` to `out` with `byteorder`'s `WriteBytesExt::write_u64` in
/// little-endian order. Believed: that the eight bytes appended are those of
/// `n` from the least significant to the most significant, and that writing to
/// a vector does not fail.
#[verifier::external_body]
pub(crate) fn put_u64_le(out: &mut Vec<u8>, n: u64)
    ensures
        final(out)@ == old(out)@ + le_bytes_u64(n),
{
    out.write_u64::<LittleEndian>(n).unwrap();
}

} // verus!
