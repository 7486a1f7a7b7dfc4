//! The stream of commands that follows the snapshot: its frames are parsed
//! into commands for the destination.
//!
//! A frame is an asterisk, the number of arguments in decimal digits and a
//! line end; then, per argument, a dollar sign, the number of bytes of the
//! argument in decimal digits, a line end, the bytes, and a line end. A line
//! end is a carriage return and a line feed.
use crate::cmd::{cmd_pack, copy_bytes, Arg, ArgView, Cmd};
use crate::decimal::{digits_value, is_digit};
use crate::errors::RdbError;
use crate::members::{items_view, same_items, with_done};
use crate::wire::{same_bytes, same_value, spec_take, take, Parsed};
use vstd::prelude::*;

verus! {

/// The largest count or length that a frame may announce.
pub const MAX_FRAME_NUMBER: u64 = 0x7fff_ffff;

/// The first position from `pos` on that holds no decimal digit.
pub open spec fn spec_digits_end(raw: Seq<u8>, pos: int) -> int
    decreases raw.len() - pos,
{
    if 0 <= pos < raw.len() && is_digit(raw[pos]) {
        spec_digits_end(raw, pos + 1)
    } else {
        pos
    }
}

/// The line end at `pos`, and the position behind it.
pub open spec fn spec_crlf(raw: Seq<u8>, pos: int) -> Parsed<()> {
    if pos < 0 || pos >= raw.len() {
        Err(RdbError::Io)
    } else if raw[pos] != 13 {
        Err(RdbError::Protocol)
    } else if pos + 1 >= raw.len() {
        Err(RdbError::Io)
    } else if raw[pos + 1] != 10 {
        Err(RdbError::Protocol)
    } else {
        Ok(((), pos + 2))
    }
}

/// The number at `pos`: one or more decimal digits and a line end. Bytes
/// that run out are reported as `Io`, which more bytes may mend; another
/// shape, or a number beyond 31 bits, as `Protocol`.
pub open spec fn spec_decimal_line(raw: Seq<u8>, pos: int) -> Parsed<u32> {
    let end = spec_digits_end(raw, pos);
    match spec_crlf(raw, end) {
        Err(e) => Err(e),
        Ok((_, next)) => if end == pos || digits_value(raw.subrange(pos, end))
            > MAX_FRAME_NUMBER {
            Err(RdbError::Protocol)
        } else {
            Ok((digits_value(raw.subrange(pos, end)) as u32, next))
        },
    }
}

/// The argument at `pos`.
pub open spec fn spec_bulk(raw: Seq<u8>, pos: int) -> Parsed<Seq<u8>> {
    if pos < 0 || pos >= raw.len() {
        Err(RdbError::Io)
    } else if raw[pos] != 36 {
        Err(RdbError::Protocol)
    } else {
        match spec_decimal_line(raw, pos + 1) {
            Err(e) => Err(e),
            Ok((n, at1)) => match spec_take(raw, at1, n as int) {
                Err(e) => Err(e),
                Ok((payload, at2)) => match spec_crlf(raw, at2) {
                    Err(e) => Err(e),
                    Ok((_, at3)) => Ok((payload, at3)),
                },
            },
        }
    }
}

/// The `count` arguments that begin at `pos`.
pub open spec fn spec_bulks(raw: Seq<u8>, pos: int, count: nat) -> Parsed<Seq<Seq<u8>>>
    decreases count,
{
    if count == 0 {
        Ok((Seq::empty(), pos))
    } else {
        match spec_bulk(raw, pos) {
            Err(e) => Err(e),
            Ok((first, at1)) => match spec_bulks(raw, at1, (count - 1) as nat) {
                Err(e) => Err(e),
                Ok((rest, next)) => Ok((seq![first] + rest, next)),
            },
        }
    }
}

/// The arguments of the frame at `pos`.
pub open spec fn spec_frame(raw: Seq<u8>, pos: int) -> Parsed<Seq<Seq<u8>>> {
    if pos < 0 || pos >= raw.len() {
        Err(RdbError::Io)
    } else if raw[pos] != 42 {
        Err(RdbError::Protocol)
    } else {
        match spec_decimal_line(raw, pos + 1) {
            Err(e) => Err(e),
            Ok((count, at1)) => spec_bulks(raw, at1, count as nat),
        }
    }
}

/// The first position from `pos` on that holds an asterisk, or the end of
/// the bytes.
pub open spec fn spec_frame_start(raw: Seq<u8>, pos: int) -> int
    decreases raw.len() - pos,
{
    if 0 <= pos < raw.len() && raw[pos] != 42 {
        spec_frame_start(raw, pos + 1)
    } else {
        pos
    }
}

/// The command that the arguments `args` make: each argument a byte
/// string.
pub open spec fn frame_cmd(args: Seq<Seq<u8>>) -> Seq<ArgView> {
    args.map_values(|a: Seq<u8>| ArgView::Bytes(a))
}

/// The name of the command that the arguments `args` make: the first
/// argument, or nothing where there is none.
pub open spec fn frame_name(args: Seq<Seq<u8>>) -> Seq<u8> {
    if args.len() == 0 {
        Seq::empty()
    } else {
        args[0]
    }
}

/// The digits from `pos` on lie within the bytes.
pub proof fn lemma_digits_end(raw: Seq<u8>, pos: int)
    requires
        0 <= pos <= raw.len(),
    ensures
        pos <= spec_digits_end(raw, pos) <= raw.len(),
        forall|k: int| pos <= k < spec_digits_end(raw, pos) ==> is_digit(#[trigger] raw[k]),
        spec_digits_end(raw, pos) < raw.len() ==> !is_digit(raw[spec_digits_end(raw, pos)]),
    decreases raw.len() - pos,
{
    if pos < raw.len() && is_digit(raw[pos]) {
        lemma_digits_end(raw, pos + 1);
    }
}

/// A frame takes up at least four bytes, and an argument at least five.
pub proof fn lemma_frame_advances(raw: Seq<u8>, pos: int, count: nat)
    requires
        0 <= pos <= raw.len(),
    ensures
        spec_decimal_line(raw, pos) matches Ok((_, next)) ==> pos + 3 <= next <= raw.len(),
        spec_bulk(raw, pos) matches Ok((_, next)) ==> pos + 6 <= next <= raw.len(),
        spec_bulks(raw, pos, count) matches Ok((items, next)) ==> pos <= next <= raw.len()
            && items.len() == count,
        spec_frame(raw, pos) matches Ok((_, next)) ==> pos + 4 <= next <= raw.len(),
    decreases count, 1int,
{
    lemma_digits_end(raw, pos);
    if pos < raw.len() {
        lemma_digits_end(raw, pos + 1);
        match spec_decimal_line(raw, pos + 1) {
            Ok((n, at1)) => {
                lemma_bulks_advance(raw, at1, n as nat);
            },
            _ => {},
        }
    }
    lemma_bulks_advance(raw, pos, count);
}

/// Arguments lie within the bytes, and are as many as were asked for.
pub proof fn lemma_bulks_advance(raw: Seq<u8>, pos: int, count: nat)
    requires
        0 <= pos <= raw.len(),
    ensures
        spec_bulks(raw, pos, count) matches Ok((items, next)) ==> pos <= next <= raw.len()
            && items.len() == count,
    decreases count, 0int,
{
    if count > 0 {
        lemma_digits_end(raw, pos);
        if pos < raw.len() {
            lemma_digits_end(raw, pos + 1);
        }
        match spec_bulk(raw, pos) {
            Ok((_, at1)) => lemma_bulks_advance(raw, at1, (count - 1) as nat),
            _ => {},
        }
    }
}

/// Reads the line end at `pos`.
pub fn crlf_at(raw: &Vec<u8>, pos: usize) -> (r: Result<((), usize), RdbError>)
    ensures
        same_value(r, spec_crlf(raw@, pos as int)),
        r matches Ok((_, next)) ==> next == pos + 2 <= raw.len(),
{
    if pos >= raw.len() {
        Err(RdbError::Io)
    } else if raw[pos] != 13 {
        Err(RdbError::Protocol)
    } else if pos + 1 >= raw.len() {
        Err(RdbError::Io)
    } else if raw[pos + 1] != 10 {
        Err(RdbError::Protocol)
    } else {
        Ok(((), pos + 2))
    }
}

/// Reads the number at `pos`.
pub fn decimal_line_at(raw: &Vec<u8>, pos: usize) -> (r: Result<(u32, usize), RdbError>)
    requires
        pos <= raw.len(),
    ensures
        same_value(r, spec_decimal_line(raw@, pos as int)),
        r matches Ok((_, next)) ==> pos + 3 <= next <= raw.len(),
{
    let ghost end = spec_digits_end(raw@, pos as int);
    proof {
        lemma_digits_end(raw@, pos as int);
    }
    let mut at: usize = pos;
    let mut acc: u64 = 0;
    let mut over: bool = false;
    while at < raw.len() && raw[at] >= 48 && raw[at] <= 57
        invariant
            pos <= at <= raw.len(),
            end == spec_digits_end(raw@, pos as int),
            end == spec_digits_end(raw@, at as int),
            forall|k: int| pos <= k < at ==> is_digit(#[trigger] raw@[k]),
            acc <= MAX_FRAME_NUMBER,
            !over ==> acc == digits_value(raw@.subrange(pos as int, at as int)),
            over ==> digits_value(raw@.subrange(pos as int, at as int)) > MAX_FRAME_NUMBER,
        decreases raw.len() - at,
    {
        let d: u64 = (raw[at] - 48) as u64;
        proof {
            let t = raw@.subrange(pos as int, at + 1);
            assert(t.drop_last() =~= raw@.subrange(pos as int, at as int));
            assert(t.last() == raw@[at as int]);
        }
        if !over {
            if acc * 10 + d > MAX_FRAME_NUMBER {
                over = true;
            } else {
                acc = acc * 10 + d;
            }
        }
        at = at + 1;
    }
    let (_, next) = crlf_at(raw, at)?;
    if at == pos || over {
        Err(RdbError::Protocol)
    } else {
        Ok((acc as u32, next))
    }
}

/// Reads the argument at `pos`.
pub fn bulk_at(raw: &Vec<u8>, pos: usize) -> (r: Result<(Vec<u8>, usize), RdbError>)
    ensures
        same_bytes(r, spec_bulk(raw@, pos as int)),
        r matches Ok((_, next)) ==> pos + 6 <= next <= raw.len(),
{
    if pos >= raw.len() {
        return Err(RdbError::Io);
    }
    if raw[pos] != 36 {
        return Err(RdbError::Protocol);
    }
    let (n, at1) = decimal_line_at(raw, pos + 1)?;
    let (payload, at2) = take(raw, at1, n as usize)?;
    let (_, at3) = crlf_at(raw, at2)?;
    Ok((payload, at3))
}

/// Reads the `count` arguments that begin at `pos`.
pub fn bulks_at(raw: &Vec<u8>, pos: usize, count: u32) -> (r: Result<
    (Vec<Vec<u8>>, usize),
    RdbError,
>)
    requires
        pos <= raw.len(),
    ensures
        same_items(r, spec_bulks(raw@, pos as int, count as nat)),
        r matches Ok((items, next)) ==> pos <= next <= raw.len() && items@.len() == count,
{
    let ghost whole = spec_bulks(raw@, pos as int, count as nat);
    let mut out: Vec<Vec<u8>> = Vec::new();
    let mut at: usize = pos;
    let mut i: u32 = 0;
    proof {
        assert(items_view(out@) =~= Seq::<Seq<u8>>::empty());
        match whole {
            Ok((rest, next)) => {
                assert(Seq::<Seq<u8>>::empty() + rest =~= rest);
            },
            Err(e) => {},
        }
    }
    while i < count
        invariant
            i <= count,
            pos <= at <= raw.len(),
            out@.len() == i,
            whole == spec_bulks(raw@, pos as int, count as nat),
            whole == with_done(items_view(out@), spec_bulks(raw@, at as int, (count - i) as nat)),
        decreases count - i,
    {
        let ghost done = items_view(out@);
        let (item, next) = bulk_at(raw, at)?;
        proof {
            match spec_bulks(raw@, next as int, (count - i - 1) as nat) {
                Ok((rest, end)) => {
                    assert(done + (seq![item@] + rest) =~= done.push(item@) + rest);
                },
                Err(e) => {},
            }
            assert(items_view(out@.push(item)) =~= done.push(item@));
        }
        out.push(item);
        at = next;
        i = i + 1;
    }
    proof {
        assert(items_view(out@) + Seq::<Seq<u8>>::empty() =~= items_view(out@));
    }
    Ok((out, at))
}

/// Whether an executable command holds the arguments `args`.
pub open spec fn pack_holds(p: cmd_pack, args: Seq<Seq<u8>>) -> bool {
    p.cmd@ == frame_cmd(args) && p.cmd_name@ == frame_name(args)
}

/// Makes the command of a frame from its arguments.
pub fn pack_of(items: Vec<Vec<u8>>) -> (p: cmd_pack)
    ensures
        pack_holds(p, items_view(items@)),
{
    let cmd_name: Vec<u8> = if items.len() > 0 {
        copy_bytes(&items[0])
    } else {
        Vec::new()
    };
    let ghost args = items_view(items@);
    let mut list: Vec<Arg> = Vec::new();
    let mut k: usize = 0;
    while k < items.len()
        invariant
            k <= items.len(),
            args == items_view(items@),
            list@.map_values(|a: Arg| a@) == frame_cmd(args).subrange(0, k as int),
        decreases items.len() - k,
    {
        let ghost before = list@;
        list.push(Arg::Bytes(copy_bytes(&items[k])));
        k = k + 1;
        proof {
            assert(args[k - 1] == items@[k - 1]@);
            assert(list@.map_values(|a: Arg| a@) =~= before.map_values(|a: Arg| a@).push(
                ArgView::Bytes(args[k - 1]),
            ));
            assert(frame_cmd(args).subrange(0, k as int) =~= frame_cmd(args).subrange(
                0,
                k - 1,
            ).push(ArgView::Bytes(args[k - 1])));
        }
    }
    assert(frame_cmd(args).subrange(0, k as int) =~= frame_cmd(args));
    cmd_pack { cmd_name, cmd: Cmd { args: list } }
}

/// Reads the frame at `pos`.
pub fn frame_at(raw: &Vec<u8>, pos: usize) -> (r: Result<(cmd_pack, usize), RdbError>)
    ensures
        match spec_frame(raw@, pos as int) {
            Ok((args, next)) => r matches Ok((p, at)) && pack_holds(p, args) && at == next,
            Err(e) => r matches Err(x) && x == e,
        },
        r matches Ok((_, next)) ==> pos + 4 <= next <= raw.len(),
{
    if pos >= raw.len() {
        return Err(RdbError::Io);
    }
    if raw[pos] != 42 {
        return Err(RdbError::Protocol);
    }
    let (count, at1) = decimal_line_at(raw, pos + 1)?;
    let (items, next) = bulks_at(raw, at1, count)?;
    Ok((pack_of(items), next))
}

/// Finds the first asterisk from `pos` on.
pub fn frame_start(raw: &Vec<u8>, pos: usize) -> (at: usize)
    requires
        pos <= raw.len(),
    ensures
        at == spec_frame_start(raw@, pos as int),
        pos <= at <= raw.len(),
{
    let mut at: usize = pos;
    while at < raw.len() && raw[at] != 42
        invariant
            pos <= at <= raw.len(),
            spec_frame_start(raw@, pos as int) == spec_frame_start(raw@, at as int),
        decreases raw.len() - at,
    {
        at = at + 1;
    }
    at
}

/// What parsing the bytes that have arrived gives.
pub struct ParsedFrames {
    /// The commands of the complete frames, in their order.
    pub packs: Vec<cmd_pack>,
    /// The position behind the last complete frame and the bytes between
    /// frames that follow it: parsing goes on from here.
    pub next: usize,
    /// Why parsing stopped: `Io` where the bytes ran out, which more bytes
    /// mend, `Protocol` where the bytes at `next` are no frame.
    pub stop: RdbError,
}

/// A `ParsedFrames` as a mathematical value: the arguments of each frame,
/// the position, and the reason.
pub struct FramesView {
    pub frames: Seq<Seq<Seq<u8>>>,
    pub next: int,
    pub stop: RdbError,
}

/// The frames from `pos` on. Bytes before a frame that are no asterisk are
/// passed over.
pub open spec fn spec_incr(raw: Seq<u8>, pos: int) -> FramesView
    decreases raw.len() - pos,
{
    let start = spec_frame_start(raw, pos);
    match spec_frame(raw, start) {
        Err(e) => FramesView { frames: Seq::empty(), next: start, stop: e },
        Ok((args, next)) => {
            if 0 <= pos <= raw.len() {
                proof {
                    lemma_frame_start(raw, pos);
                    lemma_frame_advances(raw, start, 0);
                }
                let rest = spec_incr(raw, next);
                FramesView { frames: seq![args] + rest.frames, next: rest.next, stop: rest.stop }
            } else {
                FramesView { frames: Seq::empty(), next: start, stop: RdbError::Io }
            }
        },
    }
}

/// The start of the next frame lies within the bytes.
pub proof fn lemma_frame_start(raw: Seq<u8>, pos: int)
    requires
        0 <= pos <= raw.len(),
    ensures
        pos <= spec_frame_start(raw, pos) <= raw.len(),
    decreases raw.len() - pos,
{
    if pos < raw.len() && raw[pos] != 42 {
        lemma_frame_start(raw, pos + 1);
    }
}

/// Whether executable commands hold the arguments of the frames `frames`,
/// one by one.
pub open spec fn packs_hold(packs: Seq<cmd_pack>, frames: Seq<Seq<Seq<u8>>>) -> bool {
    packs.len() == frames.len() && forall|k: int|
        0 <= k < packs.len() ==> pack_holds(#[trigger] packs[k], frames[k])
}

/// Parses the frames that have arrived in `raw` from `pos` on. Every
/// complete frame becomes a command. Parsing stops where the bytes run out or
/// are no frame, and says which and where.
pub fn incr(raw: &Vec<u8>, pos: usize) -> (r: ParsedFrames)
    requires
        pos <= raw.len(),
    ensures
        packs_hold(r.packs@, spec_incr(raw@, pos as int).frames),
        r.next == spec_incr(raw@, pos as int).next,
        r.stop == spec_incr(raw@, pos as int).stop,
        pos <= r.next <= raw.len(),
{
    let ghost whole = spec_incr(raw@, pos as int);
    let mut packs: Vec<cmd_pack> = Vec::new();
    let mut at: usize = pos;
    let ghost mut done: Seq<Seq<Seq<u8>>> = Seq::empty();
    proof {
        assert(done + whole.frames =~= whole.frames);
    }
    loop
        invariant
            pos <= at <= raw.len(),
            whole == spec_incr(raw@, pos as int),
            packs_hold(packs@, done),
            whole.frames == done + spec_incr(raw@, at as int).frames,
            whole.next == spec_incr(raw@, at as int).next,
            whole.stop == spec_incr(raw@, at as int).stop,
        decreases raw.len() - at,
    {
        let start: usize = frame_start(raw, at);
        match frame_at(raw, start) {
            Err(e) => {
                proof {
                    assert(done + Seq::<Seq<Seq<u8>>>::empty() =~= done);
                }
                return ParsedFrames { packs, next: start, stop: e };
            },
            Ok((p, next)) => {
                proof {
                    let args = spec_frame(raw@, start as int)->Ok_0.0;
                    let rest = spec_incr(raw@, next as int);
                    assert(done + (seq![args] + rest.frames) =~= done.push(args) + rest.frames);
                    done = done.push(args);
                }
                packs.push(p);
                at = next;
            },
        }
    }
}

} // verus!
