//! The wire form of commands read back: what is written for the source is
//! what the parser of the stream reads.
use crate::decimal::{dec_digits, digits_value, is_digit, is_digits, lemma_dec_digits_value};
use crate::encode::{has_at, lemma_has_at_split};
use crate::errors::RdbError;
use crate::incr::{
    lemma_frame_start,
    spec_bulk,
    spec_bulks,
    spec_crlf,
    spec_decimal_line,
    spec_digits_end,
    spec_frame,
    spec_frame_start,
    spec_incr,
    MAX_FRAME_NUMBER,
};
use crate::source::{resp_args_bytes, resp_bulk_bytes, resp_bytes};
use crate::wire::spec_take;
use vstd::prelude::*;

verus! {

/// Whether a command of the arguments `args` can be written as a frame:
/// their number and the length of each fit in 31 bits.
pub open spec fn frame_fits(args: Seq<Seq<u8>>) -> bool {
    args.len() <= MAX_FRAME_NUMBER && forall|k: int|
        0 <= k < args.len() ==> (#[trigger] args[k]).len() <= MAX_FRAME_NUMBER
}

/// A run of digits ends where the digits end.
pub proof fn lemma_digits_run(raw: Seq<u8>, pos: int, end: int)
    requires
        0 <= pos <= end < raw.len(),
        forall|k: int| pos <= k < end ==> is_digit(#[trigger] raw[k]),
        !is_digit(raw[end]),
    ensures
        spec_digits_end(raw, pos) == end,
    decreases end - pos,
{
    if pos < end {
        lemma_digits_run(raw, pos + 1, end);
    }
}

/// A written number and its line end are read back.
pub proof fn lemma_decimal_line_round_trip(raw: Seq<u8>, pos: int, n: nat)
    requires
        n <= MAX_FRAME_NUMBER,
        has_at(raw, pos, dec_digits(n) + seq![13u8, 10u8]),
    ensures
        spec_decimal_line(raw, pos) == Ok::<(u32, int), RdbError>(
            (n as u32, pos + dec_digits(n).len() + 2),
        ),
{
    let digits = dec_digits(n);
    lemma_dec_digits_value(n);
    lemma_has_at_split(raw, pos, digits, seq![13u8, 10u8]);
    let end = pos + digits.len();
    assert forall|k: int| pos <= k < end implies is_digit(#[trigger] raw[k]) by {
        assert(raw.subrange(pos, end)[k - pos] == digits[k - pos]);
    }
    assert(raw[end] == 13 && raw[end + 1] == 10) by {
        assert(raw.subrange(end, end + 2)[0] == 13);
        assert(raw.subrange(end, end + 2)[1] == 10);
    }
    lemma_digits_run(raw, pos, end);
}

/// A written argument is read back.
pub proof fn lemma_bulk_round_trip(raw: Seq<u8>, pos: int, a: Seq<u8>)
    requires
        a.len() <= MAX_FRAME_NUMBER,
        has_at(raw, pos, resp_bulk_bytes(a)),
    ensures
        spec_bulk(raw, pos) == Ok::<(Seq<u8>, int), RdbError>(
            (a, pos + resp_bulk_bytes(a).len()),
        ),
{
    let line = dec_digits(a.len()) + seq![13u8, 10u8];
    let end = seq![13u8, 10u8];
    assert(resp_bulk_bytes(a) =~= seq![36u8] + line + a + end);
    lemma_has_at_split(raw, pos, seq![36u8] + line + a, end);
    lemma_has_at_split(raw, pos, seq![36u8] + line, a);
    lemma_has_at_split(raw, pos, seq![36u8], line);
    assert(raw[pos] == 36) by {
        assert(raw.subrange(pos, pos + 1)[0] == 36);
    }
    lemma_decimal_line_round_trip(raw, pos + 1, a.len());
    let at2 = pos + 1 + line.len() + a.len();
    assert(raw[at2] == 13 && raw[at2 + 1] == 10) by {
        assert(raw.subrange(at2, at2 + 2)[0] == 13);
        assert(raw.subrange(at2, at2 + 2)[1] == 10);
    }
}

/// Written arguments are read back one by one.
pub proof fn lemma_bulks_round_trip(raw: Seq<u8>, pos: int, args: Seq<Seq<u8>>)
    requires
        forall|k: int| 0 <= k < args.len() ==> (#[trigger] args[k]).len() <= MAX_FRAME_NUMBER,
        has_at(raw, pos, resp_args_bytes(args)),
    ensures
        spec_bulks(raw, pos, args.len()) == Ok::<(Seq<Seq<u8>>, int), RdbError>(
            (args, pos + resp_args_bytes(args).len()),
        ),
    decreases args.len(),
{
    if args.len() == 0 {
        assert(args =~= Seq::<Seq<u8>>::empty());
    } else {
        let first = args[0];
        let rest = args.skip(1);
        lemma_has_at_split(raw, pos, resp_bulk_bytes(first), resp_args_bytes(rest));
        lemma_bulk_round_trip(raw, pos, first);
        assert forall|k: int| 0 <= k < rest.len() implies (#[trigger] rest[k]).len()
            <= MAX_FRAME_NUMBER by {
            assert(rest[k] == args[k + 1]);
        }
        lemma_bulks_round_trip(raw, pos + resp_bulk_bytes(first).len(), rest);
        assert(seq![first] + rest =~= args);
    }
}

/// A written command is read back: where the wire form of a command
/// stands in the stream, the parser reads a frame of exactly its arguments
/// and ends behind it.
pub proof fn lemma_frame_round_trip(raw: Seq<u8>, pos: int, args: Seq<Seq<u8>>)
    requires
        frame_fits(args),
        has_at(raw, pos, resp_bytes(args)),
    ensures
        spec_frame_start(raw, pos) == pos,
        spec_frame(raw, pos) == Ok::<(Seq<Seq<u8>>, int), RdbError>(
            (args, pos + resp_bytes(args).len()),
        ),
{
    let line = dec_digits(args.len()) + seq![13u8, 10u8];
    assert(resp_bytes(args) =~= seq![42u8] + line + resp_args_bytes(args));
    lemma_has_at_split(raw, pos, seq![42u8] + line, resp_args_bytes(args));
    lemma_has_at_split(raw, pos, seq![42u8], line);
    assert(raw[pos] == 42) by {
        assert(raw.subrange(pos, pos + 1)[0] == 42);
    }
    lemma_decimal_line_round_trip(raw, pos + 1, args.len());
    lemma_bulks_round_trip(raw, pos + 1 + line.len(), args);
}

/// The commands `cmds` in wire form, one after the other.
pub open spec fn resp_stream(cmds: Seq<Seq<Seq<u8>>>) -> Seq<u8>
    decreases cmds.len(),
{
    if cmds.len() == 0 {
        Seq::empty()
    } else {
        resp_bytes(cmds[0]) + resp_stream(cmds.skip(1))
    }
}

/// Commands are read in the order in which they were written: where a
/// stream ends with commands in wire form, the parser reads exactly these
/// commands, in their order, and stops at the end of the stream for want of
/// more bytes.
pub proof fn lemma_stream_round_trip(raw: Seq<u8>, pos: int, cmds: Seq<Seq<Seq<u8>>>)
    requires
        forall|k: int| 0 <= k < cmds.len() ==> frame_fits(#[trigger] cmds[k]),
        has_at(raw, pos, resp_stream(cmds)),
        pos + resp_stream(cmds).len() == raw.len(),
    ensures
        spec_incr(raw, pos).frames == cmds,
        spec_incr(raw, pos).next == raw.len(),
        spec_incr(raw, pos).stop == RdbError::Io,
    decreases cmds.len(),
{
    if cmds.len() == 0 {
        assert(spec_frame_start(raw, pos) == pos);
        assert(spec_incr(raw, pos).frames =~= cmds);
    } else {
        let first = cmds[0];
        let rest = cmds.skip(1);
        lemma_has_at_split(raw, pos, resp_bytes(first), resp_stream(rest));
        lemma_frame_round_trip(raw, pos, first);
        assert forall|k: int| 0 <= k < rest.len() implies frame_fits(#[trigger] rest[k]) by {
            assert(rest[k] == cmds[k + 1]);
        }
        lemma_stream_round_trip(raw, pos + resp_bytes(first).len(), rest);
        assert(seq![first] + rest =~= cmds);
    }
}

/// A number that was read is read the same when more bytes have arrived.
pub proof fn lemma_decimal_line_extends(raw: Seq<u8>, more: Seq<u8>, pos: int)
    requires
        0 <= pos <= raw.len(),
        spec_decimal_line(raw, pos) is Ok,
    ensures
        spec_decimal_line(raw + more, pos) == spec_decimal_line(raw, pos),
{
    let end = spec_digits_end(raw, pos);
    crate::incr::lemma_digits_end(raw, pos);
    let all = raw + more;
    assert forall|k: int| pos <= k < end implies is_digit(#[trigger] all[k]) by {
        assert(all[k] == raw[k]);
    }
    assert(all[end] == raw[end] && all[end + 1] == raw[end + 1]);
    lemma_digits_run(all, pos, end);
    assert(all.subrange(pos, end) =~= raw.subrange(pos, end));
}

/// Arguments that were read are read the same when more bytes have
/// arrived.
pub proof fn lemma_bulks_extend(raw: Seq<u8>, more: Seq<u8>, pos: int, count: nat)
    requires
        0 <= pos <= raw.len(),
        spec_bulks(raw, pos, count) is Ok,
    ensures
        spec_bulks(raw + more, pos, count) == spec_bulks(raw, pos, count),
    decreases count,
{
    if count > 0 {
        let all = raw + more;
        assert(all[pos] == raw[pos]);
        lemma_decimal_line_extends(raw, more, pos + 1);
        let line = spec_decimal_line(raw, pos + 1)->Ok_0;
        crate::incr::lemma_frame_advances(raw, pos + 1, 0);
        let taken = spec_take(raw, line.1, line.0 as int)->Ok_0;
        assert(all.subrange(line.1, line.1 + line.0) =~= raw.subrange(line.1, line.1 + line.0));
        assert(all[taken.1] == raw[taken.1] && all[taken.1 + 1] == raw[taken.1 + 1]);
        let first = spec_bulk(raw, pos)->Ok_0;
        assert(spec_bulk(all, pos) == spec_bulk(raw, pos));
        lemma_bulks_extend(raw, more, first.1, (count - 1) as nat);
    }
}

/// A frame that was read is read the same when more bytes have arrived.
pub proof fn lemma_frame_extends(raw: Seq<u8>, more: Seq<u8>, pos: int)
    requires
        0 <= pos <= raw.len(),
        spec_frame(raw, pos) is Ok,
    ensures
        spec_frame(raw + more, pos) == spec_frame(raw, pos),
{
    let all = raw + more;
    assert(all[pos] == raw[pos]);
    lemma_decimal_line_extends(raw, more, pos + 1);
    let line = spec_decimal_line(raw, pos + 1)->Ok_0;
    crate::incr::lemma_frame_advances(raw, pos + 1, 0);
    lemma_bulks_extend(raw, more, line.1, line.0 as nat);
}

/// The search for the next frame passes over the same bytes when more
/// bytes have arrived.
pub proof fn lemma_frame_start_extends(raw: Seq<u8>, more: Seq<u8>, pos: int)
    requires
        0 <= pos <= raw.len(),
    ensures
        spec_frame_start(raw + more, pos) == spec_frame_start(
            raw + more,
            spec_frame_start(raw, pos),
        ),
        spec_frame_start(raw, pos) < raw.len() ==> spec_frame_start(raw + more, pos)
            == spec_frame_start(raw, pos),
    decreases raw.len() - pos,
{
    let all = raw + more;
    if pos < raw.len() {
        assert(all[pos] == raw[pos]);
        if raw[pos] != 42 {
            lemma_frame_start_extends(raw, more, pos + 1);
        }
    }
}

/// Parsing resumes where it stopped. Where parsing stopped for want of
/// bytes and more bytes arrive, parsing all the bytes again gives the frames
/// that were parsed before and then what parsing gives from where it had
/// stopped: no frame is lost, none is parsed twice, and their order holds.
pub proof fn lemma_incr_resumes(raw: Seq<u8>, more: Seq<u8>, pos: int)
    requires
        0 <= pos <= raw.len(),
        spec_incr(raw, pos).stop == RdbError::Io,
    ensures
        spec_incr(raw + more, pos).frames == spec_incr(raw, pos).frames + spec_incr(
            raw + more,
            spec_incr(raw, pos).next,
        ).frames,
        spec_incr(raw + more, pos).next == spec_incr(raw + more, spec_incr(raw, pos).next).next,
        spec_incr(raw + more, pos).stop == spec_incr(raw + more, spec_incr(raw, pos).next).stop,
    decreases raw.len() - pos,
{
    let all = raw + more;
    let start = spec_frame_start(raw, pos);
    lemma_frame_start(raw, pos);
    lemma_frame_start(all, pos);
    lemma_frame_start(all, start);
    lemma_frame_start_extends(raw, more, pos);
    match spec_frame(raw, start) {
        Err(e) => {
            let from_pos = spec_incr(all, pos);
            let from_start = spec_incr(all, start);
            assert(from_pos.frames == from_start.frames && from_pos.next == from_start.next
                && from_pos.stop == from_start.stop);
            assert(Seq::<Seq<Seq<u8>>>::empty() + from_start.frames =~= from_start.frames);
        },
        Ok((args, next)) => {
            lemma_frame_extends(raw, more, start);
            crate::incr::lemma_frame_advances(raw, start, 0);
            lemma_incr_resumes(raw, more, next);
            let rest = spec_incr(raw, next);
            let tail = spec_incr(all, rest.next);
            assert(seq![args] + (rest.frames + tail.frames) =~= (seq![args] + rest.frames)
                + tail.frames);
        },
    }
}

} // verus!
