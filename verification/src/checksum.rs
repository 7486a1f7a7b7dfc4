//! The rolling 64-bit checksum of the snapshot format, computed by the `crc64`
//! crate.
use vstd::prelude::*;

verus! {

/// The checksum that results when `byte` is added to data whose checksum so far
/// is `crc`: what `crc64::crc64` returns for `crc` and a slice that holds
/// `byte` alone.
pub uninterp spec fn crc64_step(crc: u64, byte: u8) -> u64;

/// The checksum after all of `data`, byte by byte from the first, has been
/// added to data whose checksum so far is `crc`.
pub open spec fn crc64_fold(crc: u64, data: Seq<u8>) -> u64
    decreases data.len(),
{
    if data.len() == 0 {
        crc
    } else {
        crc64_step(crc64_fold(crc, data.drop_last()), data.last())
    }
}

/// The checksum of `data` on its own.
pub open spec fn crc64_of(data: Seq<u8>) -> u64 {
    crc64_fold(0, data)
}

/// Adding `a` and then `b` gives the checksum of adding `a + b` at once.
pub proof fn lemma_crc64_fold_concat(crc: u64, a: Seq<u8>, b: Seq<u8>)
    ensures
        crc64_fold(crc, a + b) == crc64_fold(crc64_fold(crc, a), b),
    decreases b.len(),
{
    if b.len() == 0 {
        assert(a + b =~= a);
    } else {
        lemma_crc64_fold_concat(crc, a, b.drop_last());
        assert((a + b).drop_last() =~= a + b.drop_last());
        assert((a + b).last() == b.last());
    }
}

/// Adding one more byte extends the checksum by one step.
pub proof fn lemma_crc64_fold_push(crc: u64, a: Seq<u8>, byte: u8)
    ensures
        crc64_fold(crc, a.push(byte)) == crc64_step(crc64_fold(crc, a), byte),
{
    assert(a.push(byte).drop_last() =~= a);
}

/// Calls `crc64::crc64` on `crc` and the one-byte slice `[byte]`. Believed:
/// that its result is the value named `crc64_step(crc, byte)`, that is, that
/// the crate computes the same number for the same two inputs every time.
#[verifier::external_body]
fn crc64_byte(crc: u64, byte: u8) -> (r: u64)
    ensures
        r == crc64_step(crc, byte),
{
    crc64::crc64(crc, &[byte])
}

/// Adds the bytes `data[from..to]` to a running checksum.
pub fn crc64_range(crc: u64, data: &Vec<u8>, from: usize, to: usize) -> (r: u64)
    requires
        from <= to <= data.len(),
    ensures
        r == crc64_fold(crc, data@.subrange(from as int, to as int)),
{
    let mut acc: u64 = crc;
    let mut k: usize = from;
    while k < to
        invariant
            from <= k <= to <= data@.len(),
            acc == crc64_fold(crc, data@.subrange(from as int, k as int)),
        decreases to - k,
    {
        proof {
            lemma_crc64_fold_push(crc, data@.subrange(from as int, k as int), data@[k as int]);
            assert(data@.subrange(from as int, k as int).push(data@[k as int]) =~= data@.subrange(
                from as int,
                k + 1,
            ));
        }
        acc = crc64_byte(acc, data[k]);
        k = k + 1;
    }
    acc
}

/// Adds all of `data` to a running checksum.
pub fn crc64_update(crc: u64, data: &Vec<u8>) -> (r: u64)
    ensures
        r == crc64_fold(crc, data@),
{
    assert(data@.subrange(0, data@.len() as int) =~= data@);
    crc64_range(crc, data, 0, data.len())
}

/// The checksum of `data`.
pub fn checksum(data: &Vec<u8>) -> (r: u64)
    ensures
        r == crc64_of(data@),
{
    crc64_update(0, data)
}

} // verus!
