use redis_shake_rs::cmd::{cmd_pack, Arg, Cmd};
use redis_shake_rs::errors::RdbError;
use redis_shake_rs::incr::{bulk_at, crlf_at, decimal_line_at, frame_at, frame_start, incr};
use redis_shake_rs::run::{Adapter, Forward, OffsetCounter, Phase, Recovery};
use redis_shake_rs::sender::{Accept, Idle, Sender, BATCH_MAX};
use redis_shake_rs::source::{
    cmd_to_bytes, discard_line_feed, listening_port, pre_to_inc, pre_to_rdb, psync_continue,
    psync_full, read_line, report_offset,
};

fn plain(c: &Cmd) -> Vec<Vec<u8>> {
    c.args
        .iter()
        .map(|a| match a {
            Arg::Bytes(b) => b.clone(),
            Arg::Double(d) => format!("double:{:016x}", d).into_bytes(),
        })
        .collect()
}

fn words(w: &[&[u8]]) -> Vec<Vec<u8>> {
    w.iter().map(|x| x.to_vec()).collect()
}

fn pack(w: &[&[u8]]) -> cmd_pack {
    let mut c = Cmd::new();
    for a in w {
        c = c.arg(a.to_vec());
    }
    cmd_pack { cmd_name: w[0].to_vec(), cmd: c }
}

#[test]
fn frames_are_parsed_into_commands() {
    let raw = b"*4\r\n$4\r\nhset\r\n$4\r\na123\r\n$1\r\nb\r\n$1\r\nc\r\n".to_vec();
    let (p, next) = frame_at(&raw, 0).unwrap();
    assert_eq!(next, raw.len());
    assert_eq!(p.cmd_name, b"hset");
    assert_eq!(plain(&p.cmd), words(&[b"hset", b"a123", b"b", b"c"]));
    let (p, next) = frame_at(&b"*0\r\n".to_vec(), 0).unwrap();
    assert_eq!(next, 4);
    assert!(p.cmd_name.is_empty());
    assert!(p.cmd.is_empty());
    let (p, _) = frame_at(&b"*1\r\n$0\r\n\r\n".to_vec(), 0).unwrap();
    assert_eq!(plain(&p.cmd), words(&[b""]));
    let (p, _) = frame_at(&b"*1\r\n$4\r\na\r\nb\r\n".to_vec(), 0).unwrap();
    assert_eq!(plain(&p.cmd), words(&[b"a\r\nb"]));
}

#[test]
fn frames_that_are_cut_short_or_malformed() {
    let raw = b"*2\r\n$3\r\nget\r\n$11\r\nhello world\r\n".to_vec();
    assert!(frame_at(&raw, 0).is_ok());
    for cut in 0..raw.len() {
        let part = raw[..cut].to_vec();
        assert_eq!(frame_at(&part, 0).unwrap_err(), RdbError::Io);
    }
    assert_eq!(frame_at(&b"+OK\r\n".to_vec(), 0).unwrap_err(), RdbError::Protocol);
    assert_eq!(frame_at(&b"*x\r\n".to_vec(), 0).unwrap_err(), RdbError::Protocol);
    assert_eq!(frame_at(&b"*\r\n".to_vec(), 0).unwrap_err(), RdbError::Protocol);
    assert_eq!(frame_at(&b"*1\n$1\r\na\r\n".to_vec(), 0).unwrap_err(), RdbError::Protocol);
    assert_eq!(frame_at(&b"*1\r\r$1\r\na\r\n".to_vec(), 0).unwrap_err(), RdbError::Protocol);
    assert_eq!(frame_at(&b"*-1\r\n".to_vec(), 0).unwrap_err(), RdbError::Protocol);
    assert_eq!(frame_at(&b"*1\r\n:1\r\n".to_vec(), 0).unwrap_err(), RdbError::Protocol);
    assert_eq!(frame_at(&b"*1\r\n$1\r\nab\r\n".to_vec(), 0).unwrap_err(), RdbError::Protocol);
    assert_eq!(frame_at(&b"*1\r\n$1\r\na\rx".to_vec(), 0).unwrap_err(), RdbError::Protocol);
    assert_eq!(frame_at(&b"*2147483648\r\n".to_vec(), 0).unwrap_err(), RdbError::Protocol);
    assert_eq!(frame_at(&b"*1\r\n$2147483647\r\nab".to_vec(), 0).unwrap_err(), RdbError::Io);
    assert_eq!(decimal_line_at(&b"0012\r\n".to_vec(), 0), Ok((12, 6)));
    assert_eq!(decimal_line_at(&b"2147483647\r\n".to_vec(), 0), Ok((2147483647, 12)));
    assert_eq!(decimal_line_at(&b"99999999999999999999999\r\n".to_vec(), 0), Err(RdbError::Protocol));
    assert_eq!(crlf_at(&b"\r\n".to_vec(), 0), Ok(((), 2)));
    assert_eq!(crlf_at(&b"\r".to_vec(), 0), Err(RdbError::Io));
    assert_eq!(bulk_at(&b"$3\r\nabc\r\n".to_vec(), 0), Ok((b"abc".to_vec(), 9)));
}

#[test]
fn the_stream_is_parsed_as_far_as_it_has_arrived() {
    let raw = b"\n*2\r\n$6\r\nSELECT\r\n$1\r\n3\r\n\n*3\r\n$3\r\nset\r\n$1\r\nk\r\n$1\r\nv\r\n*1\r\n$4\r\nPI".to_vec();
    let r = incr(&raw, 0);
    assert_eq!(r.stop, RdbError::Io);
    assert_eq!(r.packs.len(), 2);
    assert_eq!(r.packs[0].cmd_name, b"SELECT");
    assert_eq!(plain(&r.packs[0].cmd), words(&[b"SELECT", b"3"]));
    assert_eq!(plain(&r.packs[1].cmd), words(&[b"set", b"k", b"v"]));
    assert_eq!(r.next, raw.len() - 10);
    assert_eq!(raw[r.next], b'*');
    // more bytes arrive: parsing goes on where it stopped
    let mut more = raw.clone();
    more.extend_from_slice(b"NG\r\n");
    let r2 = incr(&more, r.next);
    assert_eq!(r2.packs.len(), 1);
    assert_eq!(plain(&r2.packs[0].cmd), words(&[b"PING"]));
    assert_eq!(r2.next, more.len());
    assert_eq!(r2.stop, RdbError::Io);
    let r3 = incr(&b"*1\r\n$1\r\na\r\n*1\r\n+bad".to_vec(), 0);
    assert_eq!(r3.packs.len(), 1);
    assert_eq!(r3.stop, RdbError::Protocol);
    assert_eq!(r3.next, 11);
    assert_eq!(frame_start(&b"abc*".to_vec(), 0), 3);
    assert_eq!(frame_start(&b"abc".to_vec(), 1), 3);
}

#[test]
fn command_bytes_are_parsed_back() {
    let args = words(&[b"psync", b"8d3f", b"1235", b"", b"with\r\nline end"]);
    let raw = cmd_to_bytes(&args);
    let (p, next) = frame_at(&raw, 0).unwrap();
    assert_eq!(next, raw.len());
    assert_eq!(plain(&p.cmd), args);
    assert_eq!(cmd_to_bytes(&vec![]), b"*0\r\n");
}

#[test]
fn lines_end_at_a_carriage_return() {
    let raw = b"+OK\r\n+FULLRESYNC abc 12\r\n$77\r\n\nREDIS".to_vec();
    let (line, next, ended) = read_line(&raw, 0);
    assert_eq!((line, next, ended), (b"+OK".to_vec(), 4, true));
    let (line, next, ended) = read_line(&raw, next);
    assert_eq!((line, next, ended), (b"+FULLRESYNC abc 12".to_vec(), 24, true));
    let (line, next, ended) = read_line(&raw, next);
    assert_eq!((line, next, ended), (b"$77".to_vec(), 29, true));
    assert_eq!(raw[next], b'\n');
    let (line, next, ended) = read_line(&raw, next);
    assert_eq!((line, next, ended), (b"REDIS".to_vec(), raw.len(), false));
    assert_eq!(read_line(&raw, raw.len()), (vec![], raw.len(), false));
}

#[test]
fn the_opening_handshake() {
    let ok = b"+OK".to_vec();
    assert_eq!(
        pre_to_rdb(&ok, &b"+FULLRESYNC 8d3f0c 1234".to_vec(), &b"$4096".to_vec()),
        Ok((1234, 4096, b"8d3f0c".to_vec()))
    );
    assert_eq!(
        pre_to_rdb(&ok, &b"+FULLRESYNC  7".to_vec(), &b"12".to_vec()),
        Ok((7, 12, vec![]))
    );
    let bad = [
        (&b"-ERR"[..], &b"+FULLRESYNC a 1"[..], &b"$1"[..]),
        (b"+OK", b"+FULLRESYNC a", b"$1"),
        (b"+OK", b"+FULLRESYNC", b"$1"),
        (b"+OK", b"+FULLRESYNC a 1 2", b"$1"),
        (b"+OK", b"+FULLRESYNC a 1 ", b"$1"),
        (b"+OK", b"+FULLRESYNC a x", b"$1"),
        (b"+OK", b"+FULLRESYNC a ", b"$1"),
        (b"+OK", b"+FULLRESYNC a 1", b"$"),
        (b"+OK", b"+FULLRESYNC a 1", b"$1k"),
        (b"+OK", b"", b"$1"),
    ];
    for (a, b, c) in bad {
        assert_eq!(pre_to_rdb(&a.to_vec(), &b.to_vec(), &c.to_vec()), Err(RdbError::Protocol));
    }
}

#[test]
fn one_line_feed_stands_before_the_snapshot() {
    assert_eq!(discard_line_feed(b'\n'), Ok(()));
    assert_eq!(discard_line_feed(b'\r'), Err(RdbError::Protocol));
    assert_eq!(discard_line_feed(b'R'), Err(RdbError::Protocol));
}

#[test]
fn the_continuing_handshake() {
    let ok = b"+OK".to_vec();
    assert_eq!(pre_to_inc(&ok, &b"+CONTINUE".to_vec()), Ok(()));
    assert_eq!(pre_to_inc(&ok, &b"+continue".to_vec()), Ok(()));
    assert_eq!(pre_to_inc(&ok, &b"+FULLRESYNC a 1".to_vec()), Err(RdbError::ResyncRejected));
    assert_eq!(pre_to_inc(&ok, &b"+CONTINUE x".to_vec()), Err(RdbError::ResyncRejected));
    assert_eq!(pre_to_inc(&ok, &b"".to_vec()), Err(RdbError::ResyncRejected));
    assert_eq!(pre_to_inc(&b"+ok".to_vec(), &b"+CONTINUE".to_vec()), Err(RdbError::Protocol));
}

#[test]
fn commands_for_the_source() {
    assert_eq!(
        listening_port(8083),
        b"*3\r\n$8\r\nreplconf\r\n$14\r\nlistening-port\r\n$4\r\n8083\r\n"
    );
    assert_eq!(psync_full(), b"*3\r\n$5\r\npsync\r\n$1\r\n?\r\n$2\r\n-1\r\n");
    assert_eq!(
        psync_continue(&b"8d3f".to_vec(), 1234),
        Some(b"*3\r\n$5\r\npsync\r\n$4\r\n8d3f\r\n$4\r\n1235\r\n".to_vec())
    );
    assert_eq!(psync_continue(&b"8d3f".to_vec(), u64::MAX), None);
    assert_eq!(report_offset(0), b"*3\r\n$8\r\nreplconf\r\n$3\r\nack\r\n$1\r\n0\r\n");
    assert_eq!(
        report_offset(123456789012),
        b"*3\r\n$8\r\nreplconf\r\n$3\r\nack\r\n$12\r\n123456789012\r\n"
    );
}

#[test]
fn the_counter_counts_every_byte_however_reads_are_cut() {
    let cuts: Vec<Vec<usize>> = vec![vec![1000], vec![1; 1000], vec![7, 0, 993], vec![500, 499, 1]];
    for cut in cuts {
        let mut c = OffsetCounter::new(0);
        let mut last = 0;
        for n in cut {
            c.record(n);
            assert!(c.load() >= last);
            last = c.load();
        }
        assert_eq!(c.load(), 1000);
    }
    let mut c = OffsetCounter::new(u64::MAX - 1);
    c.record(5);
    assert_eq!(c.load(), u64::MAX);
}

#[test]
fn bytes_behind_the_snapshot_count_into_the_offset() {
    let mut a = Adapter::new(5000, 100);
    assert!(a.may_read(Phase::Reading));
    assert_eq!(a.on_read(60, Phase::Reading), Forward::Bytes { snapshot: 60, tail: 0 });
    assert_eq!(a.offset(), 5000);
    assert!(!a.snapshot_received());
    assert_eq!(a.on_failure(), Recovery::Fatal);
    assert_eq!(a.on_read(70, Phase::Reading), Forward::Bytes { snapshot: 40, tail: 30 });
    assert_eq!(a.rdb_read_count(), 100);
    assert_eq!(a.offset(), 5030);
    assert!(a.snapshot_received());
    // nothing is read until the commands of the snapshot are through
    assert!(!a.may_read(Phase::Reading));
    assert_eq!(a.on_read(10, Phase::ReadDone), Forward::Hold);
    assert_eq!(a.offset(), 5030);
    assert_eq!(a.on_read(10, Phase::SendDone), Forward::Bytes { snapshot: 0, tail: 10 });
    assert_eq!(a.offset(), 5040);
    assert_eq!(a.on_failure(), Recovery::Reconnect { offset: 5040 });
    assert_eq!(a.rdb_read_count() + (a.offset() - 5000), 60 + 70 + 10);
}

fn flushed_names(cmds: &[Cmd]) -> Vec<Vec<u8>> {
    cmds.iter().map(|c| plain(c)[0].clone()).collect()
}

#[test]
fn no_frame_is_sent_before_the_snapshot_is_through() {
    let mut s = Sender::new();
    let mut seen: Vec<Vec<u8>> = Vec::new();
    assert_eq!(s.phase(), Phase::Reading);
    // a frame that comes too early is not taken
    assert!(matches!(s.accept_tail(pack(&[b"set", b"early", b"1"])), Accept::Refused(_)));
    assert!(matches!(s.accept_full(Cmd::named("DEL").arg_text("a")), Accept::Queued));
    assert!(matches!(s.accept_full(Cmd::named("RESTORE").arg_text("a")), Accept::Queued));
    assert!(matches!(s.idle(), Idle::Wait) == false);
    // the batch above was handed out by idle(): nothing is taken until it is through
    assert!(!s.ready());
    assert!(matches!(s.accept_full(Cmd::named("DEL").arg_text("b")), Accept::Refused(_)));
    assert!(matches!(s.idle(), Idle::Wait));
    s.flushed();
    assert_eq!(s.send_count(), 2);
    assert!(matches!(s.accept_full(Cmd::named("DEL").arg_text("b")), Accept::Queued));
    s.read_done();
    assert_eq!(s.phase(), Phase::ReadDone);
    assert!(matches!(s.accept_full(Cmd::named("DEL").arg_text("c")), Accept::Refused(_)));
    assert!(matches!(s.accept_tail(pack(&[b"set", b"early", b"2"])), Accept::Refused(_)));
    match s.idle() {
        Idle::Flush(out) => seen.extend(flushed_names(&out)),
        _ => panic!("the last command of the snapshot must be handed out"),
    }
    assert_eq!(s.phase(), Phase::ReadDone);
    s.flushed();
    assert!(matches!(s.idle(), Idle::SendDone));
    assert_eq!(s.phase(), Phase::SendDone);
    assert!(matches!(s.accept_full(Cmd::named("DEL").arg_text("late")), Accept::Refused(_)));
    assert!(matches!(s.accept_tail(pack(&[b"set", b"k", b"v"])), Accept::Queued));
    match s.idle() {
        Idle::Flush(out) => seen.extend(flushed_names(&out)),
        _ => panic!("the frame must be handed out"),
    }
    assert_eq!(seen, words(&[b"DEL", b"set"]));
    s.flushed();
    assert_eq!(s.send_count(), 4);
    assert!(matches!(s.idle(), Idle::Wait));
}

#[test]
fn a_full_batch_is_handed_out_at_once() {
    let mut s = Sender::new();
    for i in 0..BATCH_MAX - 1 {
        assert!(matches!(s.accept_full(Cmd::named("DEL").arg_number(i as u64)), Accept::Queued));
    }
    assert!(s.takes());
    match s.accept_full(Cmd::named("DEL").arg_text("last")) {
        Accept::Flush(out) => {
            assert_eq!(out.len(), 300);
            assert_eq!(plain(&out[0]), words(&[b"DEL", b"0"]));
            assert_eq!(plain(&out[299]), words(&[b"DEL", b"last"]));
        }
        _ => panic!("a full batch must be handed out"),
    }
    assert!(!s.takes());
    s.flushed();
    assert!(s.takes());
    assert_eq!(s.send_count(), 300);
}

#[test]
fn after_a_drop_the_select_comes_first() {
    let mut s = Sender::new();
    s.read_done();
    assert!(matches!(s.idle(), Idle::SendDone));
    s.connection_lost();
    assert!(s.reconnected().is_none());
    assert!(matches!(s.accept_tail(pack(&[b"SELECT", b"5"])), Accept::Queued));
    assert!(matches!(s.accept_tail(pack(&[b"set", b"a", b"1"])), Accept::Queued));
    let first = match s.idle() {
        Idle::Flush(out) => out,
        _ => panic!("the batch must be handed out"),
    };
    assert_eq!(first.len(), 2);
    // the connection drops while the batch is on its way
    s.connection_lost();
    assert!(!s.ready());
    assert!(matches!(s.idle(), Idle::Wait));
    assert!(matches!(s.accept_tail(pack(&[b"set", b"b", b"2"])), Accept::Refused(_)));
    let select = s.reconnected().expect("the select is replayed");
    assert_eq!(plain(&select), words(&[b"SELECT", b"5"]));
    assert!(s.reconnected().is_none());
    assert!(matches!(s.accept_tail(pack(&[b"set", b"b", b"2"])), Accept::Queued));
    // what was on its way is sent again, before the new frame
    let again = match s.idle() {
        Idle::Flush(out) => out,
        _ => panic!("the batch must be handed out again"),
    };
    let got: Vec<Vec<Vec<u8>>> = again.iter().map(plain).collect();
    assert_eq!(
        got,
        vec![words(&[b"SELECT", b"5"]), words(&[b"set", b"a", b"1"]), words(&[b"set", b"b", b"2"])]
    );
    s.flushed();
    assert_eq!(s.send_count(), 3);
    // when the source continues its stream, the select is sent again too
    assert_eq!(plain(&s.resumed().unwrap()), words(&[b"SELECT", b"5"]));
    // a later select replaces the remembered one
    assert!(matches!(s.accept_tail(pack(&[b"select", b"9"])), Accept::Queued));
    s.connection_lost();
    assert_eq!(plain(&s.reconnected().unwrap()), words(&[b"select", b"9"]));
}
