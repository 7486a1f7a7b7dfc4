//! The packed encodings that a snapshot stores inside a string: ziplists,
//! zipmaps and intsets. As in `wire`, every function takes the bytes and a
//! position, gives the value read and the position behind it, and changes
//! nothing.
use crate::decimal::{dec_text, i64_to_dec};
use crate::endian::{
    as_signed,
    be_u32,
    le_u16,
    le_u32,
    le_u64,
    read_be_u32,
    read_le_u16,
    read_le_u32,
    read_le_u64,
};
use crate::errors::RdbError;
use crate::wire::{same_bytes, same_value, spec_take, spec_u8, take, u8_at, Parsed};
use vstd::prelude::*;

verus! {

/// The upper two bits of the header of a string with a length of 6 bits.
pub const rdbZiplist6bitlenString: u8 = 0;

/// The upper two bits of the header of a string with a length of 14 bits.
pub const rdbZiplist14bitlenString: u8 = 1;

/// The upper two bits of the header of a string with a length of 32 bits.
pub const rdbZiplist32bitlenString: u8 = 2;

/// The header of an integer of 16 bits.
pub const rdbZiplistInt16: u8 = 0xc0;

/// The header of an integer of 32 bits.
pub const rdbZiplistInt32: u8 = 0xd0;

/// The header of an integer of 64 bits.
pub const rdbZiplistInt64: u8 = 0xe0;

/// The header of an integer of 24 bits.
pub const rdbZiplistInt24: u8 = 0xf0;

/// The header of an integer of 8 bits.
pub const rdbZiplistInt8: u8 = 0xfe;

/// The upper four bits of a header that holds a small integer.
pub const rdbZiplistInt4: u8 = 15;

/// The number that three bytes hold, least significant byte first.
pub open spec fn le_u24(s: Seq<u8>) -> int {
    s[0] + s[1] * 0x100 + s[2] * 0x1_0000
}

/// The decimal text of the integer of `width` bytes at `pos`, read least
/// significant byte first as a two's complement number.
#[verifier::opaque]
pub open spec fn spec_int_text(raw: Seq<u8>, pos: int, width: int) -> Parsed<Seq<u8>> {
    match spec_take(raw, pos, width) {
        Err(e) => Err(e),
        Ok((b, next)) => {
            let v = if width == 1 {
                as_signed(b[0] as int, 0x80)
            } else if width == 2 {
                as_signed(le_u16(b), 0x8000)
            } else if width == 3 {
                as_signed(le_u24(b), 0x80_0000)
            } else if width == 4 {
                as_signed(le_u32(b), 0x8000_0000)
            } else {
                as_signed(le_u64(b), 0x8000_0000_0000_0000)
            };
            Ok((dec_text(v), next))
        },
    }
}

/// The entry of a ziplist at `pos`. An entry begins with the length of the
/// entry before it, in one byte or, behind the marker byte 254, in four more.
/// Then comes a header byte. Its upper two bits announce a string with a
/// length of 6, 14 or 32 bits; or its whole value an integer of 16, 32, 64, 24
/// or 8 bits; or its upper four bits a small integer held in the lower four.
/// An integer stands for its decimal text.
#[verifier::opaque]
pub open spec fn spec_ziplist_entry(raw: Seq<u8>, pos: int) -> Parsed<Seq<u8>> {
    match spec_u8(raw, pos) {
        Err(e) => Err(e),
        Ok((prev, at1)) => {
            let at2 = if prev == 254 {
                at1 + 4
            } else {
                at1
            };
            match spec_u8(raw, at2) {
                Err(e) => Err(e),
                Ok((header, at3)) => {
                    if header / 64 == rdbZiplist6bitlenString {
                        spec_take(raw, at3, (header % 64) as int)
                    } else if header / 64 == rdbZiplist14bitlenString {
                        match spec_u8(raw, at3) {
                            Err(e) => Err(e),
                            Ok((b, at4)) => spec_take(raw, at4, (header % 64) * 256 + b),
                        }
                    } else if header / 64 == rdbZiplist32bitlenString {
                        match spec_take(raw, at3, 4) {
                            Err(e) => Err(e),
                            Ok((lb, at4)) => spec_take(raw, at4, be_u32(lb)),
                        }
                    } else if header == rdbZiplistInt16 {
                        spec_int_text(raw, at3, 2)
                    } else if header == rdbZiplistInt32 {
                        spec_int_text(raw, at3, 4)
                    } else if header == rdbZiplistInt64 {
                        spec_int_text(raw, at3, 8)
                    } else if header == rdbZiplistInt24 {
                        spec_int_text(raw, at3, 3)
                    } else if header == rdbZiplistInt8 {
                        spec_int_text(raw, at3, 1)
                    } else if header / 16 == rdbZiplistInt4 {
                        Ok((dec_text(header % 16 - 1), at3))
                    } else {
                        Err(RdbError::UnknownZiplistHeader)
                    }
                },
            }
        },
    }
}

/// The number of entries that a ziplist announces: the 16-bit number behind
/// its first eight bytes.
pub open spec fn spec_ziplist_length(raw: Seq<u8>) -> Parsed<i64> {
    match spec_take(raw, 8, 2) {
        Err(e) => Err(e),
        Ok((b, next)) => Ok((le_u16(b) as i64, next)),
    }
}

/// The length of the zipmap item at `pos` and the number of unused bytes
/// behind it. A first byte below 253 is the length, and where `read_free` is
/// set the next byte is the number of unused bytes. The byte 253 announces a
/// length of four bytes, most significant first, and one byte of unused
/// count. The byte 255 ends the zipmap, which the length -1 reports.
#[verifier::opaque]
pub open spec fn spec_zipmap_item_length(raw: Seq<u8>, pos: int, read_free: bool) -> Parsed<
    (i32, i32),
> {
    match spec_u8(raw, pos) {
        Err(e) => Err(e),
        Ok((b, at1)) => {
            if b == 253 {
                match spec_take(raw, at1, 5) {
                    Err(e) => Err(e),
                    Ok((s, at2)) => if be_u32(s.subrange(0, 4)) > i32::MAX {
                        Err(RdbError::LengthOutOfRange)
                    } else {
                        Ok(((be_u32(s.subrange(0, 4)) as i32, s[4] as i32), at2))
                    },
                }
            } else if b == 254 {
                Err(RdbError::InvalidZipmapItemLength)
            } else if b == 255 {
                Ok(((-1i32, 1i32), at1))
            } else if read_free {
                match spec_u8(raw, at1) {
                    Err(e) => Err(e),
                    Ok((free, at2)) => Ok(((b as i32, free as i32), at2)),
                }
            } else {
                Ok(((b as i32, 0i32), at1))
            }
        },
    }
}

/// The zipmap item at `pos`: its bytes, and the position behind the unused
/// bytes that follow it. At the end of the zipmap the item is empty.
pub open spec fn spec_zipmap_item(raw: Seq<u8>, pos: int, read_free: bool) -> Parsed<Seq<u8>> {
    match spec_zipmap_item_length(raw, pos, read_free) {
        Err(e) => Err(e),
        Ok(((length, free), at1)) => {
            if length == -1 {
                Ok((Seq::empty(), at1))
            } else {
                match spec_take(raw, at1, length as int) {
                    Err(e) => Err(e),
                    Ok((value, at2)) => match spec_take(raw, at2, free as int) {
                        Err(e) => Err(e),
                        Ok((_, at3)) => Ok((value, at3)),
                    },
                }
            }
        },
    }
}

/// The number of items from `pos` to the end of the zipmap, added to `n`
/// items that were counted before. Items take turns as field and value, and
/// only a value is followed by a count of unused bytes. The count may not
/// exceed 31 bits.
pub open spec fn spec_count_zipmap_items(raw: Seq<u8>, pos: int, n: int) -> Result<int, RdbError>
    decreases raw.len() - pos,
{
    match spec_zipmap_item_length(raw, pos, n % 2 != 0) {
        Err(e) => Err(e),
        Ok(((length, free), at1)) => {
            if length == -1 {
                Ok(n)
            } else {
                match spec_take(raw, at1, length + free) {
                    Err(e) => Err(e),
                    Ok((_, at2)) => if n >= i32::MAX {
                        Err(RdbError::LengthOutOfRange)
                    } else {
                        proof {
                            lemma_zipmap_item_length(raw, pos, n % 2 != 0);
                        }
                        spec_count_zipmap_items(raw, at2, n + 1)
                    },
                }
            }
        },
    }
}

/// The width in bytes of the members of the intset `raw`, and the number of
/// its members: two 32-bit numbers at its start.
pub open spec fn spec_intset_header(raw: Seq<u8>) -> Parsed<(u32, u32)> {
    match spec_take(raw, 0, 4) {
        Err(e) => Err(e),
        Ok((w, at1)) => {
            if le_u32(w) != 2 && le_u32(w) != 4 && le_u32(w) != 8 {
                Err(RdbError::UnknownIntsetEncoding)
            } else {
                match spec_take(raw, at1, 4) {
                    Err(e) => Err(e),
                    Ok((c, at2)) => Ok(((le_u32(w) as u32, le_u32(c) as u32), at2)),
                }
            }
        },
    }
}

/// The length of a zipmap item takes up at least one byte, and neither the
/// length nor the count of unused bytes is negative, but for the length -1
/// that marks the end.
pub proof fn lemma_zipmap_item_length(raw: Seq<u8>, pos: int, read_free: bool)
    ensures
        spec_zipmap_item_length(raw, pos, read_free) matches Ok(((length, free), next)) ==> 0
            <= pos < next <= raw.len() && -1 <= length && 0 <= free <= 255,
{
    reveal(spec_zipmap_item_length);
}

/// A ziplist entry lies within the bytes and takes up at least two of them.
pub proof fn lemma_ziplist_entry_advances(raw: Seq<u8>, pos: int)
    ensures
        spec_ziplist_entry(raw, pos) matches Ok((_, next)) ==> 0 <= pos && pos + 2 <= next
            <= raw.len(),
{
    reveal(spec_ziplist_entry);
    reveal(spec_int_text);
}

/// Reads the decimal text of the integer of `width` bytes at `pos`.
pub fn int_text_at(raw: &Vec<u8>, pos: usize, width: usize) -> (r: Result<
    (Vec<u8>, usize),
    RdbError,
>)
    requires
        width == 1 || width == 2 || width == 3 || width == 4 || width == 8,
    ensures
        same_bytes(r, spec_int_text(raw@, pos as int, width as int)),
        r matches Ok((_, next)) ==> next == pos + width <= raw.len(),
{
    reveal(spec_int_text);
    if pos > raw.len() || width > raw.len() - pos {
        return Err(RdbError::Io);
    }
    let ghost b = raw@.subrange(pos as int, pos + width);
    let v: i64 = if width == 1 {
        let u: u8 = raw[pos];
        if u >= 0x80 {
            u as i64 - 0x100
        } else {
            u as i64
        }
    } else if width == 2 {
        let u: u16 = read_le_u16(raw, pos);
        if u >= 0x8000 {
            u as i64 - 0x1_0000
        } else {
            u as i64
        }
    } else if width == 3 {
        let u: u32 = raw[pos] as u32 + raw[pos + 1] as u32 * 0x100 + raw[pos + 2] as u32
            * 0x1_0000;
        if u >= 0x80_0000 {
            u as i64 - 0x100_0000
        } else {
            u as i64
        }
    } else if width == 4 {
        let u: u32 = read_le_u32(raw, pos);
        if u >= 0x8000_0000 {
            u as i64 - 0x1_0000_0000
        } else {
            u as i64
        }
    } else {
        let u: u64 = read_le_u64(raw, pos);
        if u >= 0x8000_0000_0000_0000 {
            (u - 0x8000_0000_0000_0000) as i64 + i64::MIN
        } else {
            u as i64
        }
    };
    Ok((i64_to_dec(v), pos + width))
}

/// Reads the ziplist entry at `pos`.
pub fn ziplist_entry_at(raw: &Vec<u8>, pos: usize) -> (r: Result<(Vec<u8>, usize), RdbError>)
    ensures
        same_bytes(r, spec_ziplist_entry(raw@, pos as int)),
        r matches Ok((_, next)) ==> pos + 2 <= next <= raw.len(),
{
    proof {
        lemma_ziplist_entry_advances(raw@, pos as int);
    }
    reveal(spec_ziplist_entry);
    let (prev, at1) = u8_at(raw, pos)?;
    let at2: usize = if prev == 254 {
        if 4 > raw.len() - at1 {
            return Err(RdbError::Io);
        }
        at1 + 4
    } else {
        at1
    };
    let (header, at3) = u8_at(raw, at2)?;
    if header / 64 == rdbZiplist6bitlenString {
        take(raw, at3, (header % 64) as usize)
    } else if header / 64 == rdbZiplist14bitlenString {
        let (b, at4) = u8_at(raw, at3)?;
        take(raw, at4, (header % 64) as usize * 256 + b as usize)
    } else if header / 64 == rdbZiplist32bitlenString {
        if 4 > raw.len() - at3 {
            return Err(RdbError::Io);
        }
        let n: u32 = read_be_u32(raw, at3);
        let at4: usize = at3 + 4;
        if n as u64 > (raw.len() - at4) as u64 {
            return Err(RdbError::Io);
        }
        take(raw, at4, n as usize)
    } else if header == rdbZiplistInt16 {
        int_text_at(raw, at3, 2)
    } else if header == rdbZiplistInt32 {
        int_text_at(raw, at3, 4)
    } else if header == rdbZiplistInt64 {
        int_text_at(raw, at3, 8)
    } else if header == rdbZiplistInt24 {
        int_text_at(raw, at3, 3)
    } else if header == rdbZiplistInt8 {
        int_text_at(raw, at3, 1)
    } else if header / 16 == rdbZiplistInt4 {
        Ok((i64_to_dec((header % 16) as i64 - 1), at3))
    } else {
        Err(RdbError::UnknownZiplistHeader)
    }
}

/// Reads the number of entries that the ziplist `raw` announces.
pub fn ziplist_length_of(raw: &Vec<u8>) -> (r: Result<(i64, usize), RdbError>)
    ensures
        same_value(r, spec_ziplist_length(raw@)),
{
    if raw.len() < 10 {
        return Err(RdbError::Io);
    }
    Ok((read_le_u16(raw, 8) as i64, 10))
}

/// Reads the length of the zipmap item at `pos` and the number of unused
/// bytes behind the item.
pub fn zipmap_item_length_at(raw: &Vec<u8>, pos: usize, read_free: bool) -> (r: Result<
    ((i32, i32), usize),
    RdbError,
>)
    ensures
        same_value(r, spec_zipmap_item_length(raw@, pos as int, read_free)),
        r matches Ok(((length, free), next)) ==> pos < next <= raw.len() && -1 <= length && 0
            <= free <= 255,
{
    proof {
        lemma_zipmap_item_length(raw@, pos as int, read_free);
    }
    reveal(spec_zipmap_item_length);
    let (b, at1) = u8_at(raw, pos)?;
    if b == 253 {
        if 5 > raw.len() - at1 {
            return Err(RdbError::Io);
        }
        let n: u32 = read_be_u32(raw, at1);
        proof {
            let s = raw@.subrange(at1 as int, at1 + 5);
            assert(s.subrange(0, 4) =~= raw@.subrange(at1 as int, at1 + 4));
        }
        if n > 0x7fff_ffff {
            return Err(RdbError::LengthOutOfRange);
        }
        Ok(((n as i32, raw[at1 + 4] as i32), at1 + 5))
    } else if b == 254 {
        Err(RdbError::InvalidZipmapItemLength)
    } else if b == 255 {
        Ok(((-1, 1), at1))
    } else if read_free {
        let (free, at2) = u8_at(raw, at1)?;
        Ok(((b as i32, free as i32), at2))
    } else {
        Ok(((b as i32, 0), at1))
    }
}

/// Reads the zipmap item at `pos` and passes over the unused bytes behind
/// it.
pub fn zipmap_item_at(raw: &Vec<u8>, pos: usize, read_free: bool) -> (r: Result<
    (Vec<u8>, usize),
    RdbError,
>)
    ensures
        same_bytes(r, spec_zipmap_item(raw@, pos as int, read_free)),
        r matches Ok((_, next)) ==> pos < next <= raw.len(),
{
    proof {
        lemma_zipmap_item_length(raw@, pos as int, read_free);
    }
    let ((length, free), at1) = zipmap_item_length_at(raw, pos, read_free)?;
    if length == -1 {
        return Ok((Vec::new(), at1));
    }
    let (value, at2) = take(raw, at1, length as usize)?;
    if free as usize > raw.len() - at2 {
        return Err(RdbError::Io);
    }
    Ok((value, at2 + free as usize))
}

/// Counts the items from `pos` to the end of the zipmap.
pub fn count_zipmap_items_from(raw: &Vec<u8>, pos: usize) -> (r: Result<i32, RdbError>)
    ensures
        match spec_count_zipmap_items(raw@, pos as int, 0) {
            Ok(n) => r == Ok::<i32, RdbError>(n as i32) && 0 <= n <= i32::MAX,
            Err(e) => r == Err::<i32, RdbError>(e),
        },
{
    let ghost whole = spec_count_zipmap_items(raw@, pos as int, 0);
    let mut n: i32 = 0;
    let mut at: usize = pos;
    loop
        invariant
            0 <= n,
            whole == spec_count_zipmap_items(raw@, pos as int, 0),
            whole == spec_count_zipmap_items(raw@, at as int, n as int),
        decreases raw.len() - at,
    {
        proof {
            lemma_zipmap_item_length(raw@, at as int, n % 2 != 0);
        }
        let ((length, free), at1) = zipmap_item_length_at(raw, at, n % 2 != 0)?;
        if length == -1 {
            return Ok(n);
        }
        let skip: usize = length as usize + free as usize;
        if skip > raw.len() - at1 {
            return Err(RdbError::Io);
        }
        if n == i32::MAX {
            return Err(RdbError::LengthOutOfRange);
        }
        at = at1 + skip;
        n = n + 1;
    }
}

/// Reads the width of the members of the intset `raw` and their number.
pub fn intset_header_of(raw: &Vec<u8>) -> (r: Result<((u32, u32), usize), RdbError>)
    ensures
        same_value(r, spec_intset_header(raw@)),
{
    if raw.len() < 4 {
        return Err(RdbError::Io);
    }
    let width: u32 = read_le_u32(raw, 0);
    if width != 2 && width != 4 && width != 8 {
        return Err(RdbError::UnknownIntsetEncoding);
    }
    if raw.len() < 8 {
        return Err(RdbError::Io);
    }
    Ok(((width, read_le_u32(raw, 4)), 8))
}

} // verus!
