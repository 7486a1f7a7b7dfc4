//! The primitive encodings of the snapshot format: lengths, strings and
//! numbers, each read from a byte sequence at a position.
//!
//! Every function here takes the bytes and a position and gives the value read
//! and the position behind it, and changes nothing. A specification function
//! of the same name, prefixed with `spec_`, says what is read.
use crate::decimal::{dec_text, i64_to_dec};
use crate::endian::{
    as_signed,
    be_u32,
    be_u64,
    le_u16,
    le_u32,
    le_u64,
    read_be_u32,
    read_be_u64,
    read_le_u16,
    read_le_u32,
    read_le_u64,
};
use crate::errors::RdbError;
use crate::lzf::{lzfDecompress, lzf_decompress};
use vstd::prelude::*;
use vstd::string::*;

verus! {

/// The special encoding of a string as an integer of 8 bits.
pub const rdbEncInt8: u8 = 0;

/// The special encoding of a string as an integer of 16 bits.
pub const rdbEncInt16: u8 = 1;

/// The special encoding of a string as an integer of 32 bits.
pub const rdbEncInt32: u8 = 2;

/// The special encoding of a string as compressed bytes.
pub const rdbEncLZF: u8 = 3;

/// The upper two bits of a length of 6 bits.
pub const rdb6bitLen: u8 = 0;

/// The upper two bits of a length of 14 bits.
pub const rdb14bitLen: u8 = 1;

/// The byte before a length of 32 bits.
pub const rdb32bitLen: u8 = 0x80;

/// The byte before a length of 64 bits.
pub const rdb64bitLen: u8 = 0x81;

/// The upper two bits of the number of a special encoding.
pub const rdbEncVal: u8 = 3;

/// A value read from bytes, and the position behind it.
pub type Parsed<T> = Result<(T, int), RdbError>;

/// Whether an executable result of a scalar type is what the specification
/// gives.
pub open spec fn same_value<T>(r: Result<(T, usize), RdbError>, want: Parsed<T>) -> bool {
    match want {
        Ok((v, next)) => r matches Ok((got, at)) && got == v && at == next,
        Err(e) => r matches Err(x) && x == e,
    }
}

/// Whether an executable result that holds bytes is what the specification
/// gives.
pub open spec fn same_bytes(r: Result<(Vec<u8>, usize), RdbError>, want: Parsed<Seq<u8>>) -> bool {
    match want {
        Ok((v, next)) => r matches Ok((got, at)) && got@ == v && at == next,
        Err(e) => r matches Err(x) && x == e,
    }
}

/// The `n` bytes at `pos`.
pub open spec fn spec_take(raw: Seq<u8>, pos: int, n: int) -> Parsed<Seq<u8>> {
    if pos < 0 || n < 0 || pos + n > raw.len() {
        Err(RdbError::Io)
    } else {
        Ok((raw.subrange(pos, pos + n), pos + n))
    }
}

/// The byte at `pos`.
pub open spec fn spec_u8(raw: Seq<u8>, pos: int) -> Parsed<u8> {
    match spec_take(raw, pos, 1) {
        Ok((b, next)) => Ok((b[0], next)),
        Err(e) => Err(e),
    }
}

/// The 16-bit number at `pos`, least significant byte first.
pub open spec fn spec_u16(raw: Seq<u8>, pos: int) -> Parsed<u16> {
    match spec_take(raw, pos, 2) {
        Ok((b, next)) => Ok((le_u16(b) as u16, next)),
        Err(e) => Err(e),
    }
}

/// The 32-bit number at `pos`, least significant byte first.
pub open spec fn spec_u32(raw: Seq<u8>, pos: int) -> Parsed<u32> {
    match spec_take(raw, pos, 4) {
        Ok((b, next)) => Ok((le_u32(b) as u32, next)),
        Err(e) => Err(e),
    }
}

/// The 64-bit number at `pos`, least significant byte first.
pub open spec fn spec_u64(raw: Seq<u8>, pos: int) -> Parsed<u64> {
    match spec_take(raw, pos, 8) {
        Ok((b, next)) => Ok((le_u64(b) as u64, next)),
        Err(e) => Err(e),
    }
}

/// The 32-bit number at `pos`, most significant byte first.
pub open spec fn spec_u32_be(raw: Seq<u8>, pos: int) -> Parsed<u32> {
    match spec_take(raw, pos, 4) {
        Ok((b, next)) => Ok((be_u32(b) as u32, next)),
        Err(e) => Err(e),
    }
}

/// The 64-bit number at `pos`, most significant byte first.
pub open spec fn spec_u64_be(raw: Seq<u8>, pos: int) -> Parsed<u64> {
    match spec_take(raw, pos, 8) {
        Ok((b, next)) => Ok((be_u64(b) as u64, next)),
        Err(e) => Err(e),
    }
}

/// The length at `pos`, and whether it is no length but the number of a
/// special string encoding. The upper two bits of the first byte choose among
/// a 6-bit length, a 14-bit length, a special encoding, and, by the whole
/// byte, a 32-bit or a 64-bit length that follows most significant byte first.
#[verifier::opaque]
pub open spec fn spec_encoded_length(raw: Seq<u8>, pos: int) -> Parsed<(u32, bool)> {
    match spec_u8(raw, pos) {
        Err(e) => Err(e),
        Ok((u, at1)) => {
            if u / 64 == rdb6bitLen {
                Ok((((u % 64) as u32, false), at1))
            } else if u / 64 == rdb14bitLen {
                match spec_u8(raw, at1) {
                    Err(e) => Err(e),
                    Ok((u2, at2)) => Ok(((((u % 64) * 256 + u2) as u32, false), at2)),
                }
            } else if u / 64 == rdbEncVal {
                Ok((((u % 64) as u32, true), at1))
            } else if u == rdb32bitLen {
                match spec_u32_be(raw, at1) {
                    Err(e) => Err(e),
                    Ok((n, at2)) => Ok(((n, false), at2)),
                }
            } else if u == rdb64bitLen {
                match spec_u64_be(raw, at1) {
                    Err(e) => Err(e),
                    Ok((n, at2)) => if n > u32::MAX {
                        Err(RdbError::LengthOutOfRange)
                    } else {
                        Ok(((n as u32, false), at2))
                    },
                }
            } else {
                Err(RdbError::UnknownEncodingLength)
            }
        },
    }
}

/// The plain length at `pos`.
pub open spec fn spec_length(raw: Seq<u8>, pos: int) -> Parsed<u32> {
    match spec_encoded_length(raw, pos) {
        Err(e) => Err(e),
        Ok(((n, encoded), next)) => if encoded {
            Err(RdbError::EncodedLength)
        } else {
            Ok((n, next))
        },
    }
}

/// The string at `pos`: a length and that many bytes, or an integer of 8, 16
/// or 32 bits, which stands for its decimal text, or compressed bytes, which
/// stand for what they decompress to.
#[verifier::opaque]
pub open spec fn spec_string(raw: Seq<u8>, pos: int) -> Parsed<Seq<u8>> {
    match spec_encoded_length(raw, pos) {
        Err(e) => Err(e),
        Ok(((n, encoded), at1)) => {
            if !encoded {
                spec_take(raw, at1, n as int)
            } else if n == rdbEncInt8 {
                match spec_u8(raw, at1) {
                    Err(e) => Err(e),
                    Ok((v, at2)) => Ok((dec_text(as_signed(v as int, 0x80)), at2)),
                }
            } else if n == rdbEncInt16 {
                match spec_u16(raw, at1) {
                    Err(e) => Err(e),
                    Ok((v, at2)) => Ok((dec_text(as_signed(v as int, 0x8000)), at2)),
                }
            } else if n == rdbEncInt32 {
                match spec_u32(raw, at1) {
                    Err(e) => Err(e),
                    Ok((v, at2)) => Ok((dec_text(as_signed(v as int, 0x8000_0000)), at2)),
                }
            } else if n == rdbEncLZF {
                match spec_length(raw, at1) {
                    Err(e) => Err(e),
                    Ok((inlen, at2)) => match spec_length(raw, at2) {
                        Err(e) => Err(e),
                        Ok((outlen, at3)) => match spec_take(raw, at3, inlen as int) {
                            Err(e) => Err(e),
                            Ok((data, at4)) => match lzf_decompress(data, outlen as int) {
                                Err(e) => Err(e),
                                Ok(out) => Ok((out, at4)),
                            },
                        },
                    },
                }
            } else {
                Err(RdbError::InvalidEncodedString)
            }
        },
    }
}

/// The text of the number at `pos` in the legacy encoding of scores: a byte
/// that is the length of the decimal text that follows, or one of three
/// reserved bytes for not-a-number and the two infinities.
#[verifier::opaque]
pub open spec fn spec_float(raw: Seq<u8>, pos: int) -> Parsed<Seq<u8>> {
    match spec_u8(raw, pos) {
        Err(e) => Err(e),
        Ok((u, at1)) => {
            if u == 253 {
                Ok(("nan".spec_bytes(), at1))
            } else if u == 254 {
                Ok(("inf".spec_bytes(), at1))
            } else if u == 255 {
                Ok(("-inf".spec_bytes(), at1))
            } else {
                spec_take(raw, at1, u as int)
            }
        },
    }
}

/// The eight bytes at `pos` that hold an IEEE 754 double, as the 64-bit
/// number they spell least significant byte first.
pub open spec fn spec_double(raw: Seq<u8>, pos: int) -> Parsed<u64> {
    spec_u64(raw, pos)
}

/// A value that was read lies within the bytes, behind where reading began.
pub open spec fn advances<T>(raw: Seq<u8>, pos: int, r: Parsed<T>) -> bool {
    r matches Ok((_, next)) ==> 0 <= pos <= next <= raw.len()
}

/// A length or a string that was read takes up at least one byte.
pub proof fn lemma_wire_advances(raw: Seq<u8>, pos: int)
    ensures
        advances(raw, pos, spec_take(raw, pos, 1)),
        spec_u8(raw, pos) matches Ok((_, next)) ==> 0 <= pos && next == pos + 1 <= raw.len(),
        spec_encoded_length(raw, pos) matches Ok((_, next)) ==> 0 <= pos < next <= raw.len(),
        spec_length(raw, pos) matches Ok((_, next)) ==> 0 <= pos < next <= raw.len(),
        spec_string(raw, pos) matches Ok((_, next)) ==> 0 <= pos < next <= raw.len(),
        spec_float(raw, pos) matches Ok((_, next)) ==> 0 <= pos < next <= raw.len(),
        spec_double(raw, pos) matches Ok((_, next)) ==> 0 <= pos && next == pos + 8 <= raw.len(),
{
    reveal(spec_encoded_length);
    reveal(spec_string);
    reveal(spec_float);
}

/// Reads the `n` bytes at `pos`.
pub fn take(raw: &Vec<u8>, pos: usize, n: usize) -> (r: Result<(Vec<u8>, usize), RdbError>)
    ensures
        same_bytes(r, spec_take(raw@, pos as int, n as int)),
        r matches Ok((_, next)) ==> pos <= next <= raw.len(),
{
    proof {
        lemma_wire_advances(raw@, pos as int);
    }
    if pos > raw.len() || n > raw.len() - pos {
        return Err(RdbError::Io);
    }
    let end: usize = pos + n;
    let mut out: Vec<u8> = Vec::new();
    let mut k: usize = pos;
    while k < end
        invariant
            pos <= k <= end <= raw.len(),
            out@ == raw@.subrange(pos as int, k as int),
        decreases end - k,
    {
        out.push(raw[k]);
        k = k + 1;
        assert(out@ =~= raw@.subrange(pos as int, k as int));
    }
    Ok((out, end))
}

/// Reads the byte at `pos`.
pub fn u8_at(raw: &Vec<u8>, pos: usize) -> (r: Result<(u8, usize), RdbError>)
    ensures
        same_value(r, spec_u8(raw@, pos as int)),
        r matches Ok((_, next)) ==> pos < next <= raw.len(),
{
    proof {
        lemma_wire_advances(raw@, pos as int);
    }
    if pos >= raw.len() {
        return Err(RdbError::Io);
    }
    Ok((raw[pos], pos + 1))
}

/// Reads the 16-bit number at `pos`, least significant byte first.
pub fn u16_at(raw: &Vec<u8>, pos: usize) -> (r: Result<(u16, usize), RdbError>)
    ensures
        same_value(r, spec_u16(raw@, pos as int)),
        r matches Ok((_, next)) ==> pos < next <= raw.len(),
{
    proof {
        lemma_wire_advances(raw@, pos as int);
    }
    if pos > raw.len() || 2 > raw.len() - pos {
        return Err(RdbError::Io);
    }
    Ok((read_le_u16(raw, pos), pos + 2))
}

/// Reads the 32-bit number at `pos`, least significant byte first.
pub fn u32_at(raw: &Vec<u8>, pos: usize) -> (r: Result<(u32, usize), RdbError>)
    ensures
        same_value(r, spec_u32(raw@, pos as int)),
        r matches Ok((_, next)) ==> pos < next <= raw.len(),
{
    proof {
        lemma_wire_advances(raw@, pos as int);
    }
    if pos > raw.len() || 4 > raw.len() - pos {
        return Err(RdbError::Io);
    }
    Ok((read_le_u32(raw, pos), pos + 4))
}

/// Reads the 64-bit number at `pos`, least significant byte first.
pub fn u64_at(raw: &Vec<u8>, pos: usize) -> (r: Result<(u64, usize), RdbError>)
    ensures
        same_value(r, spec_u64(raw@, pos as int)),
        r matches Ok((_, next)) ==> pos < next <= raw.len(),
{
    proof {
        lemma_wire_advances(raw@, pos as int);
    }
    if pos > raw.len() || 8 > raw.len() - pos {
        return Err(RdbError::Io);
    }
    Ok((read_le_u64(raw, pos), pos + 8))
}

/// Reads the 32-bit number at `pos`, most significant byte first.
pub fn u32_be_at(raw: &Vec<u8>, pos: usize) -> (r: Result<(u32, usize), RdbError>)
    ensures
        same_value(r, spec_u32_be(raw@, pos as int)),
        r matches Ok((_, next)) ==> pos < next <= raw.len(),
{
    proof {
        lemma_wire_advances(raw@, pos as int);
    }
    if pos > raw.len() || 4 > raw.len() - pos {
        return Err(RdbError::Io);
    }
    Ok((read_be_u32(raw, pos), pos + 4))
}

/// Reads the 64-bit number at `pos`, most significant byte first.
pub fn u64_be_at(raw: &Vec<u8>, pos: usize) -> (r: Result<(u64, usize), RdbError>)
    ensures
        same_value(r, spec_u64_be(raw@, pos as int)),
        r matches Ok((_, next)) ==> pos < next <= raw.len(),
{
    proof {
        lemma_wire_advances(raw@, pos as int);
    }
    if pos > raw.len() || 8 > raw.len() - pos {
        return Err(RdbError::Io);
    }
    Ok((read_be_u64(raw, pos), pos + 8))
}

/// Reads the length at `pos`, and whether it names a special encoding.
pub fn encoded_length_at(raw: &Vec<u8>, pos: usize) -> (r: Result<((u32, bool), usize), RdbError>)
    ensures
        same_value(r, spec_encoded_length(raw@, pos as int)),
        r matches Ok((_, next)) ==> pos < next <= raw.len(),
{
    proof {
        lemma_wire_advances(raw@, pos as int);
    }
    reveal(spec_encoded_length);
    let (u, at1) = u8_at(raw, pos)?;
    if u / 64 == rdb6bitLen {
        Ok((((u % 64) as u32, false), at1))
    } else if u / 64 == rdb14bitLen {
        let (u2, at2) = u8_at(raw, at1)?;
        Ok((((u % 64) as u32 * 256 + u2 as u32, false), at2))
    } else if u / 64 == rdbEncVal {
        Ok((((u % 64) as u32, true), at1))
    } else if u == rdb32bitLen {
        let (n, at2) = u32_be_at(raw, at1)?;
        Ok(((n, false), at2))
    } else if u == rdb64bitLen {
        let (n, at2) = u64_be_at(raw, at1)?;
        if n > 0xffff_ffff {
            Err(RdbError::LengthOutOfRange)
        } else {
            Ok(((n as u32, false), at2))
        }
    } else {
        Err(RdbError::UnknownEncodingLength)
    }
}

/// Reads the plain length at `pos`.
pub fn length_at(raw: &Vec<u8>, pos: usize) -> (r: Result<(u32, usize), RdbError>)
    ensures
        same_value(r, spec_length(raw@, pos as int)),
        r matches Ok((_, next)) ==> pos < next <= raw.len(),
{
    proof {
        lemma_wire_advances(raw@, pos as int);
    }
    let ((n, encoded), next) = encoded_length_at(raw, pos)?;
    if encoded {
        Err(RdbError::EncodedLength)
    } else {
        Ok((n, next))
    }
}

/// Reads the string at `pos`.
pub fn string_at(raw: &Vec<u8>, pos: usize) -> (r: Result<(Vec<u8>, usize), RdbError>)
    ensures
        same_bytes(r, spec_string(raw@, pos as int)),
        r matches Ok((_, next)) ==> pos < next <= raw.len(),
{
    proof {
        lemma_wire_advances(raw@, pos as int);
    }
    reveal(spec_string);
    let ((n, encoded), at1) = encoded_length_at(raw, pos)?;
    if !encoded {
        take(raw, at1, n as usize)
    } else if n == rdbEncInt8 as u32 {
        let (v, at2) = u8_at(raw, at1)?;
        let i: i64 = if v >= 0x80 {
            v as i64 - 0x100
        } else {
            v as i64
        };
        Ok((i64_to_dec(i), at2))
    } else if n == rdbEncInt16 as u32 {
        let (v, at2) = u16_at(raw, at1)?;
        let i: i64 = if v >= 0x8000 {
            v as i64 - 0x1_0000
        } else {
            v as i64
        };
        Ok((i64_to_dec(i), at2))
    } else if n == rdbEncInt32 as u32 {
        let (v, at2) = u32_at(raw, at1)?;
        let i: i64 = if v >= 0x8000_0000 {
            v as i64 - 0x1_0000_0000
        } else {
            v as i64
        };
        Ok((i64_to_dec(i), at2))
    } else if n == rdbEncLZF as u32 {
        let (inlen, at2) = length_at(raw, at1)?;
        let (outlen, at3) = length_at(raw, at2)?;
        let (data, at4) = take(raw, at3, inlen as usize)?;
        match lzfDecompress(&data, outlen as usize) {
            Ok(out) => Ok((out, at4)),
            Err(e) => Err(e),
        }
    } else {
        Err(RdbError::InvalidEncodedString)
    }
}

/// Reads the text of the number at `pos` in the legacy encoding of scores.
pub fn float_at(raw: &Vec<u8>, pos: usize) -> (r: Result<(Vec<u8>, usize), RdbError>)
    ensures
        same_bytes(r, spec_float(raw@, pos as int)),
        r matches Ok((_, next)) ==> pos < next <= raw.len(),
{
    proof {
        lemma_wire_advances(raw@, pos as int);
    }
    reveal(spec_float);
    let (u, at1) = u8_at(raw, pos)?;
    if u == 253 {
        Ok(("nan".as_bytes_vec(), at1))
    } else if u == 254 {
        Ok(("inf".as_bytes_vec(), at1))
    } else if u == 255 {
        Ok(("-inf".as_bytes_vec(), at1))
    } else {
        take(raw, at1, u as usize)
    }
}

/// Reads the bits of the double at `pos`.
pub fn double_at(raw: &Vec<u8>, pos: usize) -> (r: Result<(u64, usize), RdbError>)
    ensures
        same_value(r, spec_double(raw@, pos as int)),
        r matches Ok((_, next)) ==> pos < next <= raw.len(),
{
    proof {
        lemma_wire_advances(raw@, pos as int);
    }
    u64_at(raw, pos)
}

} // verus!
