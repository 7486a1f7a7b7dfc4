//! LZF decompression, as used for large strings inside a snapshot.
//!
//! Compressed data is a sequence of items. An item that starts with a control
//! byte below 32 is a literal run: the control byte plus one is the number of
//! bytes that follow and are copied as they are. Any other control byte starts
//! a back-reference: its upper three bits give a length (with one more length
//! byte when those bits are all set), its lower five bits and the next byte a
//! distance, and the item stands for bytes that were already produced.
use crate::errors::RdbError;
use vstd::prelude::*;

verus! {

/// `out` followed by `len` more bytes, each a copy of the byte that stands
/// `off` places before it. A copy may reach into what it has itself produced.
pub open spec fn lzf_backref(out: Seq<u8>, off: int, len: nat) -> Seq<u8>
    decreases len,
{
    if len == 0 {
        out
    } else {
        lzf_backref(out.push(out[out.len() - off]), off, (len - 1) as nat)
    }
}

/// The number of bytes a back-reference with control byte `ctrl` takes up,
/// its control byte included.
pub open spec fn lzf_ref_size(ctrl: u8) -> int {
    if ctrl / 32 == 7 {
        3
    } else {
        2
    }
}

/// The number of bytes that the back-reference at `i` produces.
pub open spec fn lzf_ref_len(input: Seq<u8>, i: int) -> nat {
    let ctrl = input[i];
    if ctrl / 32 == 7 {
        (7 + input[i + 1] + 2) as nat
    } else {
        (ctrl / 32 + 2) as nat
    }
}

/// How far back the back-reference at `i` reaches.
pub open spec fn lzf_ref_off(input: Seq<u8>, i: int) -> int {
    let ctrl = input[i];
    (ctrl % 32) * 256 + input[i + lzf_ref_size(ctrl) - 1] + 1
}

/// The output of decompressing `input` from index `i` on, when `out` has been
/// produced so far and the output may not grow beyond `outlen` bytes.
pub open spec fn lzf_expand(input: Seq<u8>, i: int, out: Seq<u8>, outlen: int) -> Result<
    Seq<u8>,
    RdbError,
>
    decreases input.len() - i,
{
    if i < 0 || i >= input.len() {
        Ok(out)
    } else {
        let ctrl = input[i];
        if ctrl < 32 {
            let run = ctrl + 1;
            if i + 1 + run > input.len() || out.len() + run > outlen {
                Err(RdbError::DataNotExist)
            } else {
                lzf_expand(input, i + 1 + run, out + input.subrange(i + 1, i + 1 + run), outlen)
            }
        } else {
            let size = lzf_ref_size(ctrl);
            if i + size > input.len() {
                Err(RdbError::DataNotExist)
            } else {
                let len = lzf_ref_len(input, i);
                let off = lzf_ref_off(input, i);
                if off > out.len() || out.len() + len > outlen {
                    Err(RdbError::DataNotExist)
                } else {
                    lzf_expand(input, i + size, lzf_backref(out, off, len), outlen)
                }
            }
        }
    }
}

/// `n` zero bytes.
pub open spec fn zeros(n: int) -> Seq<u8> {
    Seq::new(
        if n < 0 {
            0
        } else {
            n as nat
        },
        |k: int| 0u8,
    )
}

/// What decompressing `input` into a buffer of `outlen` bytes gives: the
/// decompressed bytes, followed by zero bytes where they are fewer than
/// `outlen`.
pub open spec fn lzf_decompress(input: Seq<u8>, outlen: int) -> Result<Seq<u8>, RdbError> {
    match lzf_expand(input, 0, Seq::empty(), outlen) {
        Ok(out) => Ok(out + zeros(outlen - out.len())),
        Err(e) => Err(e),
    }
}

/// A back-reference of length `len` adds exactly `len` bytes and keeps what
/// was there.
pub proof fn lemma_lzf_backref_len(out: Seq<u8>, off: int, len: nat)
    ensures
        lzf_backref(out, off, len).len() == out.len() + len,
        lzf_backref(out, off, len).subrange(0, out.len() as int) == out,
    decreases len,
{
    if len > 0 {
        let next = out.push(out[out.len() - off]);
        lemma_lzf_backref_len(next, off, (len - 1) as nat);
        assert(lzf_backref(out, off, len).subrange(0, out.len() as int) =~= lzf_backref(
            next,
            off,
            (len - 1) as nat,
        ).subrange(0, next.len() as int).subrange(0, out.len() as int));
    } else {
        assert(out.subrange(0, out.len() as int) =~= out);
    }
}

/// Decompresses `in_data` into `outlen` bytes. Where the items of `in_data`
/// produce fewer bytes, zero bytes fill the rest. Fails when an item is cut
/// short, reaches back before the first byte produced, or would produce more
/// than `outlen` bytes.
pub fn lzfDecompress(in_data: &Vec<u8>, outlen: usize) -> (r: Result<Vec<u8>, RdbError>)
    ensures
        match lzf_decompress(in_data@, outlen as int) {
            Ok(bytes) => r matches Ok(v) && v@ == bytes && v@.len() == outlen,
            Err(e) => r == Err::<Vec<u8>, RdbError>(e),
        },
{
    let ghost whole = lzf_expand(in_data@, 0, Seq::empty(), outlen as int);
    let mut out: Vec<u8> = Vec::new();
    let mut i: usize = 0;
    while i < in_data.len()
        invariant
            i <= in_data.len(),
            out@.len() <= outlen,
            whole == lzf_expand(in_data@, 0, Seq::empty(), outlen as int),
            whole == lzf_expand(in_data@, i as int, out@, outlen as int),
        decreases in_data.len() - i,
    {
        let ctrl: u8 = in_data[i];
        if ctrl < 32 {
            let run: usize = ctrl as usize + 1;
            if run > in_data.len() - (i + 1) || run > outlen - out.len() {
                return Err(RdbError::DataNotExist);
            }
            let ghost before = out@;
            let first: usize = i + 1;
            let mut k: usize = 0;
            while k < run
                invariant
                    k <= run,
                    first + run <= in_data.len(),
                    out@ == before + in_data@.subrange(first as int, first + k),
                decreases run - k,
            {
                out.push(in_data[first + k]);
                k = k + 1;
                assert(out@ =~= before + in_data@.subrange(first as int, first + k));
            }
            i = first + run;
        } else {
            let extended: bool = ctrl / 32 == 7;
            let size: usize = if extended {
                3
            } else {
                2
            };
            if size > in_data.len() - i {
                return Err(RdbError::DataNotExist);
            }
            let len: usize = if extended {
                7 + in_data[i + 1] as usize + 2
            } else {
                (ctrl / 32) as usize + 2
            };
            let off: usize = (ctrl % 32) as usize * 256 + in_data[i + size - 1] as usize + 1;
            if off > out.len() || len > outlen - out.len() {
                return Err(RdbError::DataNotExist);
            }
            let ghost before = out@;
            let mut k: usize = 0;
            while k < len
                invariant
                    k <= len,
                    1 <= off <= out@.len(),
                    out@.len() + (len - k) <= outlen,
                    lzf_backref(before, off as int, len as nat) == lzf_backref(
                        out@,
                        off as int,
                        (len - k) as nat,
                    ),
                decreases len - k,
            {
                let b: u8 = out[out.len() - off];
                out.push(b);
                k = k + 1;
            }
            i = i + size;
        }
    }
    let ghost produced = out@;
    while out.len() < outlen
        invariant
            out@.len() <= outlen,
            produced.len() <= out@.len(),
            out@ == produced + zeros(out@.len() - produced.len()),
        decreases outlen - out.len(),
    {
        out.push(0);
        assert(out@ =~= produced + zeros(out@.len() - produced.len()));
    }
    proof {
        assert(produced =~= produced + zeros(0));
    }
    Ok(out)
}

/// One item of compressed data.
pub enum LzfItem {
    /// A run of bytes that are stored as they are.
    Literal { bytes: Seq<u8> },
    /// A reference to `len` bytes that begin `off` bytes before the end of
    /// what has been produced.
    Copy { off: nat, len: nat },
}

impl LzfItem {
    /// Whether the item can be written down, and can be read when `produced`
    /// bytes have been produced: a literal run holds 1 to 32 bytes; a
    /// reference copies 3 to 264 bytes from at most 8192 bytes back, and not
    /// from before the first byte.
    pub open spec fn fits(self, produced: nat) -> bool {
        match self {
            LzfItem::Literal { bytes } => 1 <= bytes.len() <= 32,
            LzfItem::Copy { off, len } => 1 <= off <= 8192 && off <= produced && 3 <= len <= 264,
        }
    }

    /// The bytes that the item is written as.
    pub open spec fn encoded(self) -> Seq<u8> {
        match self {
            LzfItem::Literal { bytes } => seq![(bytes.len() - 1) as u8] + bytes,
            LzfItem::Copy { off, len } => if len < 9 {
                seq![((len - 2) * 32 + (off - 1) / 256) as u8, ((off - 1) % 256) as u8]
            } else {
                seq![(7 * 32 + (off - 1) / 256) as u8, (len - 9) as u8, ((off - 1) % 256) as u8]
            },
        }
    }

    /// What has been produced once the item has been read behind `out`.
    pub open spec fn applied(self, out: Seq<u8>) -> Seq<u8> {
        match self {
            LzfItem::Literal { bytes } => out + bytes,
            LzfItem::Copy { off, len } => lzf_backref(out, off as int, len),
        }
    }
}

/// Whether each of `items` fits where it stands, behind `produced` bytes.
pub open spec fn lzf_items_fit(items: Seq<LzfItem>, out: Seq<u8>) -> bool
    decreases items.len(),
{
    items.len() == 0 || (items[0].fits(out.len()) && lzf_items_fit(
        items.skip(1),
        items[0].applied(out),
    ))
}

/// The bytes that `items` are written as.
pub open spec fn lzf_encoded(items: Seq<LzfItem>) -> Seq<u8>
    decreases items.len(),
{
    if items.len() == 0 {
        Seq::empty()
    } else {
        items[0].encoded() + lzf_encoded(items.skip(1))
    }
}

/// What has been produced once `items` have been read behind `out`.
pub open spec fn lzf_applied(items: Seq<LzfItem>, out: Seq<u8>) -> Seq<u8>
    decreases items.len(),
{
    if items.len() == 0 {
        out
    } else {
        lzf_applied(items.skip(1), items[0].applied(out))
    }
}

/// Reading items only adds to what has been produced.
pub proof fn lemma_lzf_applied_grows(items: Seq<LzfItem>, out: Seq<u8>)
    ensures
        out.len() <= lzf_applied(items, out).len(),
    decreases items.len(),
{
    if items.len() > 0 {
        match items[0] {
            LzfItem::Literal { bytes } => {},
            LzfItem::Copy { off, len } => {
                lemma_lzf_backref_len(out, off as int, len);
            },
        }
        lemma_lzf_applied_grows(items.skip(1), items[0].applied(out));
    }
}

/// Decompression reads fitting items as what they stand for: where the
/// compressed data from index `i` on is `items` written down, and the output
/// has room for what they produce behind `out`, decompression from `i` on
/// gives exactly that.
pub proof fn lemma_lzf_expand_items(
    input: Seq<u8>,
    i: int,
    items: Seq<LzfItem>,
    out: Seq<u8>,
    outlen: int,
)
    requires
        0 <= i <= input.len(),
        input.subrange(i, input.len() as int) == lzf_encoded(items),
        lzf_items_fit(items, out),
        lzf_applied(items, out).len() <= outlen,
    ensures
        lzf_expand(input, i, out, outlen) == Ok::<Seq<u8>, RdbError>(lzf_applied(items, out)),
    decreases items.len(),
{
    let rest = input.subrange(i, input.len() as int);
    if items.len() == 0 {
        assert(rest.len() == 0);
    } else {
        let item = items[0];
        let enc = item.encoded();
        let tail = lzf_encoded(items.skip(1));
        assert(rest == enc + tail);
        assert forall|k: int| 0 <= k < enc.len() implies input[i + k] == enc[k] by {
            assert(rest[k] == enc[k]);
        }
        let next = item.applied(out);
        lemma_lzf_applied_grows(items.skip(1), next);
        assert(input.subrange(i + enc.len(), input.len() as int) =~= tail) by {
            assert(input.subrange(i + enc.len(), input.len() as int) =~= rest.subrange(
                enc.len() as int,
                rest.len() as int,
            ));
        }
        match item {
            LzfItem::Literal { bytes } => {
                assert(input[i] == enc[0]);
                assert(input.subrange(i + 1, i + 1 + bytes.len()) =~= bytes) by {
                    assert forall|k: int| 0 <= k < bytes.len() implies input[i + 1 + k]
                        == bytes[k] by {
                        assert(enc[1 + k] == bytes[k]);
                    }
                }
            },
            LzfItem::Copy { off, len } => {
                lemma_lzf_backref_len(out, off as int, len);
                assert(input[i] == enc[0]);
                assert(input[i + 1] == enc[1]);
                if len >= 9 {
                    assert(input[i + 2] == enc[2]);
                }
                let ctrl = input[i];
                assert(ctrl / 32 == (if len < 9 {
                    len - 2
                } else {
                    7
                }) && ctrl % 32 == (off - 1) / 256) by {
                    assert((off - 1) / 256 < 32);
                }
                assert(lzf_ref_len(input, i) == len);
                assert(lzf_ref_off(input, i) == off);
            },
        }
        lemma_lzf_expand_items(input, i + enc.len(), items.skip(1), next, outlen);
    }
}

/// Decompressing what a compressor wrote gives back what was compressed:
/// whatever items a compressor chose to write `x` down as, decompression of
/// their bytes into a buffer of the length of `x` gives `x`.
pub proof fn lemma_lzf_round_trip(items: Seq<LzfItem>, x: Seq<u8>)
    requires
        lzf_items_fit(items, Seq::empty()),
        lzf_applied(items, Seq::empty()) == x,
    ensures
        lzf_decompress(lzf_encoded(items), x.len() as int) == Ok::<Seq<u8>, RdbError>(x),
{
    let input = lzf_encoded(items);
    assert(input.subrange(0, input.len() as int) =~= input);
    lemma_lzf_expand_items(input, 0, items, Seq::empty(), x.len() as int);
    assert(x + zeros(0) =~= x);
}

/// `x` written down as literal runs of at most 32 bytes.
pub open spec fn lzf_literal_items(x: Seq<u8>) -> Seq<LzfItem>
    decreases x.len(),
{
    if x.len() == 0 {
        Seq::empty()
    } else if x.len() <= 32 {
        seq![LzfItem::Literal { bytes: x }]
    } else {
        seq![LzfItem::Literal { bytes: x.subrange(0, 32) }] + lzf_literal_items(
            x.subrange(32, x.len() as int),
        )
    }
}

/// Every byte string can be written down, and is read back as it was.
pub proof fn lemma_lzf_literals_round_trip(x: Seq<u8>)
    ensures
        lzf_decompress(lzf_encoded(lzf_literal_items(x)), x.len() as int) == Ok::<
            Seq<u8>,
            RdbError,
        >(x),
{
    lemma_lzf_literal_items(x, Seq::empty());
    assert(Seq::<u8>::empty() + x =~= x);
    lemma_lzf_round_trip(lzf_literal_items(x), x);
}

/// Literal runs fit anywhere and produce what they hold.
pub proof fn lemma_lzf_literal_items(x: Seq<u8>, out: Seq<u8>)
    ensures
        lzf_items_fit(lzf_literal_items(x), out),
        lzf_applied(lzf_literal_items(x), out) == out + x,
    decreases x.len(),
{
    let items = lzf_literal_items(x);
    if x.len() == 0 {
        assert(out + x =~= out);
    } else if x.len() <= 32 {
        assert(items.skip(1) =~= Seq::<LzfItem>::empty());
        assert(items[0].applied(out) == out + x);
        assert(lzf_items_fit(items.skip(1), out + x));
        assert(lzf_applied(items.skip(1), out + x) == out + x);
    } else {
        let head = x.subrange(0, 32);
        let tail = x.subrange(32, x.len() as int);
        assert(items.skip(1) =~= lzf_literal_items(tail));
        lemma_lzf_literal_items(tail, out + head);
        assert(items[0].applied(out) == out + head);
        assert(items[0].fits(out.len()));
        assert(lzf_items_fit(items.skip(1), out + head));
        assert((out + head) + tail =~= out + x);
    }
}

} // verus!
