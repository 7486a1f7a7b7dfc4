//! The handshake with the source: the commands that open and continue a
//! replication session, and the replies that they get.
use crate::cmd::{bytes_are, copy_bytes};
use crate::decimal::{dec_digits, parse_i64, spec_parse_i64, u64_to_dec};
use crate::errors::RdbError;
use crate::members::items_view;
use vstd::prelude::*;
use vstd::string::*;

verus! {

/// The line that begins at `pos`: the bytes up to the next carriage return,
/// without the line feeds among them; the position behind that carriage
/// return, or the end of the bytes where there is none; and whether there was
/// one.
pub open spec fn spec_line(raw: Seq<u8>, pos: int) -> (Seq<u8>, int, bool)
    decreases raw.len() - pos,
{
    if pos < 0 || pos >= raw.len() {
        (Seq::empty(), pos, false)
    } else if raw[pos] == 13 {
        (Seq::empty(), pos + 1, true)
    } else {
        let rest = spec_line(raw, pos + 1);
        if raw[pos] == 10 {
            rest
        } else {
            (seq![raw[pos]] + rest.0, rest.1, rest.2)
        }
    }
}

/// Reads the line that begins at `pos`. A line ends with a carriage return;
/// line feeds are passed over, so that the line feed behind the carriage
/// return of one line is no part of the next. Where the bytes end without a
/// carriage return, what was read is returned and the last part of the result
/// is `false`.
pub fn read_line(raw: &Vec<u8>, pos: usize) -> (r: (Vec<u8>, usize, bool))
    requires
        pos <= raw.len(),
    ensures
        r.0@ == spec_line(raw@, pos as int).0,
        r.1 == spec_line(raw@, pos as int).1,
        r.2 == spec_line(raw@, pos as int).2,
        pos <= r.1 <= raw.len(),
{
    let ghost whole = spec_line(raw@, pos as int);
    let mut resp: Vec<u8> = Vec::new();
    let mut at: usize = pos;
    proof {
        assert(resp@ + whole.0 =~= whole.0);
    }
    while at < raw.len()
        invariant
            pos <= at <= raw.len(),
            whole == spec_line(raw@, pos as int),
            whole.0 == resp@ + spec_line(raw@, at as int).0,
            whole.1 == spec_line(raw@, at as int).1,
            whole.2 == spec_line(raw@, at as int).2,
        decreases raw.len() - at,
    {
        let b: u8 = raw[at];
        if b == 13 {
            proof {
                assert(resp@ + Seq::<u8>::empty() =~= resp@);
            }
            return (resp, at + 1, true);
        }
        if b != 10 {
            proof {
                let rest = spec_line(raw@, at + 1);
                assert(resp@ + (seq![b] + rest.0) =~= resp@.push(b) + rest.0);
            }
            resp.push(b);
        }
        at = at + 1;
    }
    proof {
        assert(resp@ + Seq::<u8>::empty() =~= resp@);
    }
    (resp, at, false)
}

/// The position of the first space in `s` from `from` on, or the length of
/// `s` where there is none.
pub open spec fn next_space(s: Seq<u8>, from: int) -> int
    decreases s.len() - from,
{
    if from < 0 || from >= s.len() || s[from] == 32 {
        from
    } else {
        next_space(s, from + 1)
    }
}

/// `s` without its dollar signs.
pub open spec fn without_dollars(s: Seq<u8>) -> Seq<u8> {
    s.filter(|b: u8| b != 36)
}

/// What the replies to the opening of a session give: the offset at which
/// the stream begins, the size of the snapshot, and the identity of the
/// session. `set_port_resp` is the reply to the announcement of the listening
/// port, which must be `+OK`; `header` the reply to the request for
/// synchronisation, which must be three words with one space between each,
/// the third a number; `size_line` the line that follows, which must be a
/// number once its dollar sign is taken away.
pub open spec fn spec_pre_to_rdb(set_port_resp: Seq<u8>, header: Seq<u8>, size_line: Seq<u8>)
    -> Result<(i64, i64, Seq<u8>), RdbError> {
    let first = next_space(header, 0);
    let second = next_space(header, first + 1);
    if set_port_resp != "+OK".spec_bytes() {
        Err(RdbError::Protocol)
    } else if first >= header.len() || second >= header.len() || next_space(header, second + 1)
        < header.len() {
        Err(RdbError::Protocol)
    } else {
        match spec_parse_i64(header.subrange(second + 1, header.len() as int)) {
            None => Err(RdbError::Protocol),
            Some(offset) => match spec_parse_i64(without_dollars(size_line)) {
                None => Err(RdbError::Protocol),
                Some(size) => Ok((offset, size, header.subrange(first + 1, second))),
            },
        }
    }
}

/// `b` as an upper-case letter where it is a lower-case one.
pub open spec fn upper(b: u8) -> u8 {
    if 97 <= b <= 122 {
        (b - 32) as u8
    } else {
        b
    }
}

/// Whether `a` and `b` are the same text but for the case of their letters.
pub open spec fn same_ignoring_case(a: Seq<u8>, b: Seq<u8>) -> bool {
    a.len() == b.len() && forall|k: int| 0 <= k < a.len() ==> upper(#[trigger] a[k]) == upper(b[k])
}

/// What the replies to the continuation of a session give. The reply to the
/// announcement of the listening port must be `+OK`; the reply to the request
/// to continue must be `+CONTINUE`, in any case of its letters, or the
/// session is lost.
pub open spec fn spec_pre_to_inc(set_port_resp: Seq<u8>, header: Seq<u8>) -> Result<(), RdbError> {
    if set_port_resp != "+OK".spec_bytes() {
        Err(RdbError::Protocol)
    } else if !same_ignoring_case(header, "+CONTINUE".spec_bytes()) {
        Err(RdbError::ResyncRejected)
    } else {
        Ok(())
    }
}

/// Finds the first space in `s` from `from` on.
pub fn find_space(s: &Vec<u8>, from: usize) -> (at: usize)
    requires
        from <= s.len(),
    ensures
        at == next_space(s@, from as int),
        from <= at <= s.len(),
{
    let mut at: usize = from;
    while at < s.len() && s[at] != 32
        invariant
            from <= at <= s.len(),
            next_space(s@, from as int) == next_space(s@, at as int),
        decreases s.len() - at,
    {
        at = at + 1;
    }
    at
}

/// A copy of the bytes `s[from..to]`.
pub fn copy_range(s: &Vec<u8>, from: usize, to: usize) -> (r: Vec<u8>)
    requires
        from <= to <= s.len(),
    ensures
        r@ == s@.subrange(from as int, to as int),
{
    let mut out: Vec<u8> = Vec::new();
    let mut k: usize = from;
    while k < to
        invariant
            from <= k <= to <= s.len(),
            out@ == s@.subrange(from as int, k as int),
        decreases to - k,
    {
        out.push(s[k]);
        k = k + 1;
        assert(out@ =~= s@.subrange(from as int, k as int));
    }
    out
}

/// A copy of `s` without its dollar signs.
pub fn strip_dollars(s: &Vec<u8>) -> (r: Vec<u8>)
    ensures
        r@ == without_dollars(s@),
{
    let mut out: Vec<u8> = Vec::new();
    let mut k: usize = 0;
    proof {
        assert(s@.subrange(0, 0) =~= Seq::<u8>::empty());
        reveal(Seq::filter);
    }
    while k < s.len()
        invariant
            k <= s.len(),
            out@ == without_dollars(s@.subrange(0, k as int)),
        decreases s.len() - k,
    {
        proof {
            reveal(Seq::filter);
            let t = s@.subrange(0, k + 1);
            assert(t.drop_last() =~= s@.subrange(0, k as int));
            assert(t.last() == s@[k as int]);
        }
        if s[k] != 36 {
            out.push(s[k]);
        }
        k = k + 1;
    }
    assert(s@.subrange(0, k as int) =~= s@);
    out
}

/// Whether `a` is the text `s` but for the case of its letters.
pub fn is_text_ignoring_case(a: &Vec<u8>, s: &str) -> (r: bool)
    ensures
        r == same_ignoring_case(a@, s.spec_bytes()),
{
    let t: &[u8] = s.as_bytes();
    if a.len() != t.len() {
        return false;
    }
    let mut k: usize = 0;
    while k < a.len()
        invariant
            k <= a.len(),
            a.len() == t@.len(),
            t@ == s.spec_bytes(),
            forall|j: int| 0 <= j < k ==> upper(#[trigger] a@[j]) == upper(t@[j]),
        decreases a.len() - k,
    {
        let x: u8 = if a[k] >= 97 && a[k] <= 122 {
            a[k] - 32
        } else {
            a[k]
        };
        let y: u8 = if t[k] >= 97 && t[k] <= 122 {
            t[k] - 32
        } else {
            t[k]
        };
        if x != y {
            return false;
        }
        k = k + 1;
    }
    true
}

/// Reads the replies to the opening of a session: returns the offset at
/// which the stream begins, the size of the snapshot in bytes, and the
/// identity of the session.
pub fn pre_to_rdb(set_port_resp: &Vec<u8>, header: &Vec<u8>, size_line: &Vec<u8>) -> (r: Result<
    (i64, i64, Vec<u8>),
    RdbError,
>)
    ensures
        match spec_pre_to_rdb(set_port_resp@, header@, size_line@) {
            Ok((offset, size, uuid)) => r matches Ok((o, s, u)) && o == offset && s == size && u@
                == uuid,
            Err(e) => r matches Err(x) && x == e,
        },
{
    if !bytes_are(set_port_resp, "+OK") {
        return Err(RdbError::Protocol);
    }
    let first: usize = find_space(header, 0);
    if first >= header.len() {
        return Err(RdbError::Protocol);
    }
    let second: usize = find_space(header, first + 1);
    if second >= header.len() {
        return Err(RdbError::Protocol);
    }
    let third: usize = find_space(header, second + 1);
    if third < header.len() {
        return Err(RdbError::Protocol);
    }
    let offset: i64 = match parse_i64(&copy_range(header, second + 1, header.len())) {
        Some(v) => v,
        None => {
            return Err(RdbError::Protocol);
        },
    };
    let rdb_size: i64 = match parse_i64(&strip_dollars(size_line)) {
        Some(v) => v,
        None => {
            return Err(RdbError::Protocol);
        },
    };
    Ok((offset, rdb_size, copy_range(header, first + 1, second)))
}

/// Reads the replies to the continuation of a session.
pub fn pre_to_inc(set_port_resp: &Vec<u8>, header: &Vec<u8>) -> (r: Result<(), RdbError>)
    ensures
        r == spec_pre_to_inc(set_port_resp@, header@),
{
    if !bytes_are(set_port_resp, "+OK") {
        return Err(RdbError::Protocol);
    }
    if !is_text_ignoring_case(header, "+CONTINUE") {
        return Err(RdbError::ResyncRejected);
    }
    Ok(())
}

/// Takes the byte that stands between the replies of a handshake and what
/// follows them, which must be a line feed. Exactly this one byte is
/// discarded: behind it the bytes of the snapshot, or of the stream that
/// continues, begin.
pub fn discard_line_feed(b: u8) -> (r: Result<(), RdbError>)
    ensures
        r is Ok <==> b == 10,
        r is Err ==> r == Err::<(), RdbError>(RdbError::Protocol),
{
    if b == 10 {
        Ok(())
    } else {
        Err(RdbError::Protocol)
    }
}

/// One argument in the wire form of a command: a dollar sign, the number of
/// bytes of the argument, a line end, the argument, a line end.
pub open spec fn resp_bulk_bytes(a: Seq<u8>) -> Seq<u8> {
    seq![36u8] + dec_digits(a.len()) + seq![13u8, 10u8] + a + seq![13u8, 10u8]
}

/// The arguments of a command in wire form, one after the other.
pub open spec fn resp_args_bytes(args: Seq<Seq<u8>>) -> Seq<u8>
    decreases args.len(),
{
    if args.len() == 0 {
        Seq::empty()
    } else {
        resp_bulk_bytes(args[0]) + resp_args_bytes(args.skip(1))
    }
}

/// The wire form of a command: an asterisk, the number of arguments, a line
/// end, then each argument.
pub open spec fn resp_bytes(args: Seq<Seq<u8>>) -> Seq<u8> {
    seq![42u8] + dec_digits(args.len()) + seq![13u8, 10u8] + resp_args_bytes(args)
}

/// Appends the bytes of `more` to `out`.
pub fn append_bytes(out: &mut Vec<u8>, more: &Vec<u8>)
    ensures
        final(out)@ == old(out)@ + more@,
{
    let mut k: usize = 0;
    assert(more@.subrange(0, 0) =~= Seq::<u8>::empty());
    assert(out@ + Seq::<u8>::empty() =~= out@);
    while k < more.len()
        invariant
            k <= more.len(),
            out@ == old(out)@ + more@.subrange(0, k as int),
        decreases more.len() - k,
    {
        out.push(more[k]);
        k = k + 1;
        assert(out@ =~= old(out)@ + more@.subrange(0, k as int));
    }
    assert(more@.subrange(0, k as int) =~= more@);
}

/// The arguments of a command with one more argument are, in wire form,
/// the arguments and then that argument.
pub proof fn lemma_resp_args_push(args: Seq<Seq<u8>>, a: Seq<u8>)
    ensures
        resp_args_bytes(args.push(a)) == resp_args_bytes(args) + resp_bulk_bytes(a),
    decreases args.len(),
{
    let all = args.push(a);
    if args.len() == 0 {
        assert(all.skip(1) =~= Seq::<Seq<u8>>::empty());
        assert(resp_args_bytes(all.skip(1)) =~= Seq::<u8>::empty());
        assert(resp_args_bytes(all) =~= resp_bulk_bytes(a));
        assert(resp_args_bytes(args) + resp_bulk_bytes(a) =~= resp_bulk_bytes(a));
    } else {
        lemma_resp_args_push(args.skip(1), a);
        assert(all.skip(1) =~= args.skip(1).push(a));
        assert(all[0] == args[0]);
        assert(resp_bulk_bytes(args[0]) + (resp_args_bytes(args.skip(1)) + resp_bulk_bytes(a))
            =~= (resp_bulk_bytes(args[0]) + resp_args_bytes(args.skip(1))) + resp_bulk_bytes(a));
    }
}

/// The wire form in which the command with the arguments `args` is sent.
pub fn cmd_to_bytes(args: &Vec<Vec<u8>>) -> (r: Vec<u8>)
    ensures
        r@ == resp_bytes(items_view(args@)),
{
    let ghost all = items_view(args@);
    let mut out: Vec<u8> = Vec::new();
    out.push(42);
    append_bytes(&mut out, &u64_to_dec(args.len() as u64));
    out.push(13);
    out.push(10);
    let ghost head = out@;
    assert(head =~= seq![42u8] + dec_digits(all.len()) + seq![13u8, 10u8]);
    let mut i: usize = 0;
    proof {
        assert(all.subrange(0, 0) =~= Seq::<Seq<u8>>::empty());
        assert(head + resp_args_bytes(all.subrange(0, 0)) =~= head);
    }
    while i < args.len()
        invariant
            i <= args.len(),
            all == items_view(args@),
            out@ == head + resp_args_bytes(all.subrange(0, i as int)),
        decreases args.len() - i,
    {
        let item: &Vec<u8> = &args[i];
        let ghost before = out@;
        out.push(36);
        append_bytes(&mut out, &u64_to_dec(item.len() as u64));
        out.push(13);
        out.push(10);
        append_bytes(&mut out, item);
        out.push(13);
        out.push(10);
        proof {
            assert(all[i as int] == item@);
            assert(out@ =~= before + resp_bulk_bytes(item@));
            lemma_resp_args_push(all.subrange(0, i as int), item@);
            assert(all.subrange(0, i as int).push(item@) =~= all.subrange(0, i + 1));
            assert(out@ =~= head + resp_args_bytes(all.subrange(0, i + 1)));
        }
        i = i + 1;
    }
    assert(all.subrange(0, i as int) =~= all);
    out
}

/// The command that announces the listening port `port` to the source.
pub open spec fn spec_listening_port(port: u16) -> Seq<u8> {
    resp_bytes(
        seq!["replconf".spec_bytes(), "listening-port".spec_bytes(), dec_digits(port as nat)],
    )
}

/// The command that asks the source for a full synchronisation.
pub open spec fn spec_psync_full() -> Seq<u8> {
    resp_bytes(seq!["psync".spec_bytes(), "?".spec_bytes(), "-1".spec_bytes()])
}

/// The command that asks the source to continue the session `uuid` from
/// the byte behind `offset`.
pub open spec fn spec_psync_continue(uuid: Seq<u8>, offset: u64) -> Seq<u8> {
    resp_bytes(seq!["psync".spec_bytes(), uuid, dec_digits((offset + 1) as nat)])
}

/// The command that acknowledges `offset` bytes to the source.
pub open spec fn spec_report_offset(offset: u64) -> Seq<u8> {
    resp_bytes(seq!["replconf".spec_bytes(), "ack".spec_bytes(), dec_digits(offset as nat)])
}

/// The wire form of a command of three arguments.
fn three(a: Vec<u8>, b: Vec<u8>, c: Vec<u8>) -> (r: Vec<u8>)
    ensures
        r@ == resp_bytes(seq![a@, b@, c@]),
{
    let mut args: Vec<Vec<u8>> = Vec::new();
    args.push(a);
    args.push(b);
    args.push(c);
    assert(items_view(args@) =~= seq![a@, b@, c@]);
    cmd_to_bytes(&args)
}

/// Builds the command that announces the listening port.
pub fn listening_port(port: u16) -> (r: Vec<u8>)
    ensures
        r@ == spec_listening_port(port),
{
    three("replconf".as_bytes_vec(), "listening-port".as_bytes_vec(), u64_to_dec(port as u64))
}

/// Builds the command that asks for a full synchronisation.
pub fn psync_full() -> (r: Vec<u8>)
    ensures
        r@ == spec_psync_full(),
{
    three("psync".as_bytes_vec(), "?".as_bytes_vec(), "-1".as_bytes_vec())
}

/// Builds the command that asks the source to continue the session `uuid`
/// behind the `offset` bytes that were received. There is no byte behind the
/// largest offset, so that offset cannot be continued from.
pub fn psync_continue(uuid: &Vec<u8>, offset: u64) -> (r: Option<Vec<u8>>)
    ensures
        match r {
            Some(v) => offset < u64::MAX && v@ == spec_psync_continue(uuid@, offset),
            None => offset == u64::MAX,
        },
{
    if offset == 0xffff_ffff_ffff_ffff {
        None
    } else {
        Some(three("psync".as_bytes_vec(), copy_bytes(uuid), u64_to_dec(offset + 1)))
    }
}

/// Builds the command that acknowledges `offset` bytes, which is sent to
/// the source once a second.
pub fn report_offset(offset: u64) -> (r: Vec<u8>)
    ensures
        r@ == spec_report_offset(offset),
{
    three("replconf".as_bytes_vec(), "ack".as_bytes_vec(), u64_to_dec(offset))
}

} // verus!
