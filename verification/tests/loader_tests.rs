use redis_shake_rs::cmd::{Arg, Cmd};
use redis_shake_rs::errors::RdbError;
use redis_shake_rs::full::{
    entry_commands, full, full_at, full_step, key_commands, millis_of, restore_ttl,
    OverRestoreBigRdbEntry, OverRestoreQuicklistEntry,
};
use redis_shake_rs::loader::{
    createValueDump, dump_body, rdbLoadCheckModuleValue, seal_dump, verify_checksum, BinEntry,
    Loader,
};

fn len(n: usize) -> Vec<u8> {
    if n < 64 {
        vec![n as u8]
    } else if n < 16384 {
        vec![0x40 | (n >> 8) as u8, n as u8]
    } else {
        let mut v = vec![0x80];
        v.extend_from_slice(&(n as u32).to_be_bytes());
        v
    }
}

fn string(s: &[u8]) -> Vec<u8> {
    let mut v = len(s.len());
    v.extend_from_slice(s);
    v
}

fn header() -> Vec<u8> {
    b"REDIS0009".to_vec()
}

fn finish(mut stream: Vec<u8>) -> Vec<u8> {
    stream.push(0xff);
    let crc = crc64::crc64(0, &stream);
    stream.extend_from_slice(&crc.to_le_bytes());
    stream
}

fn dump(t: u8, payload: &[u8]) -> Vec<u8> {
    let mut v = vec![t];
    v.extend_from_slice(payload);
    v.extend_from_slice(&[6, 0]);
    let crc = crc64::crc64(0, &v);
    v.extend_from_slice(&crc.to_le_bytes());
    v
}

fn plain(c: &Cmd) -> Vec<Vec<u8>> {
    c.args
        .iter()
        .map(|a| match a {
            Arg::Bytes(b) => b.clone(),
            Arg::Double(d) => format!("double:{:016x}", d).into_bytes(),
        })
        .collect()
}

fn plain_all(cmds: &[Cmd]) -> Vec<Vec<Vec<u8>>> {
    cmds.iter().map(plain).collect()
}

fn words(w: &[&[u8]]) -> Vec<Vec<u8>> {
    w.iter().map(|x| x.to_vec()).collect()
}

fn entry(t: u8, key: &[u8], payload: &[u8]) -> BinEntry {
    let mut e = BinEntry::new();
    e.Type = t;
    e.Key = key.to_vec();
    e.Value = dump(t, payload);
    e
}

#[test]
fn value_dump_wraps_type_payload_version_and_checksum() {
    let d = createValueDump(0, string(b"bar"));
    assert_eq!(d[..7], [0, 3, b'b', b'a', b'r', 6, 0]);
    assert_eq!(d.len(), 15);
    let crc = crc64::crc64(0, &d[..7]);
    assert_eq!(d[7..], crc.to_le_bytes());
    assert_eq!(d, dump(0, &string(b"bar")));
    assert_eq!(createValueDump(14, vec![]).len(), 11);
    assert_eq!(dump_body(2, &vec![9, 8]), vec![2, 9, 8, 6, 0]);
    assert_eq!(
        seal_dump(vec![1, 2], 0x0102030405060708),
        vec![1, 2, 8, 7, 6, 5, 4, 3, 2, 1]
    );
    assert_eq!(verify_checksum(5, 5), Ok(()));
    assert_eq!(verify_checksum(5, 6), Err(RdbError::Checksum));
}

#[test]
fn header_is_magic_and_four_digits() {
    let mut l = Loader::new(header());
    assert_eq!(l.Header(), Ok(()));
    assert_eq!(l.rdbReader.nread, 9);
    assert_eq!(l.rdbReader.crc64, crc64::crc64(0, b"REDIS0009"));
    let mut l = Loader::new(b"REDIX0009".to_vec());
    assert_eq!(l.Header(), Err(RdbError::BadHeader));
    assert_eq!(l.rdbReader.nread, 0);
    let mut l = Loader::new(b"REDIS00a9".to_vec());
    assert_eq!(l.Header(), Err(RdbError::BadHeader));
    let mut l = Loader::new(b"REDIS000".to_vec());
    assert_eq!(l.Header(), Err(RdbError::Io));
}

#[test]
fn concrete_scenario_of_one_string_key() {
    let mut s = header();
    s.push(0xfa);
    s.extend(string(b"redis-ver"));
    s.extend(string(b"5.0.0"));
    s.push(0xfe);
    s.extend(len(0));
    s.push(0);
    s.extend(string(b"foo"));
    s.extend(string(b"bar"));
    let s = finish(s);

    let mut l = Loader::new(s.clone());
    assert_eq!(l.Header(), Ok(()));
    let mut active = None;
    let first = full_step(&mut l, &mut active, 1000).unwrap().unwrap();
    assert_eq!(
        plain_all(&first),
        vec![
            words(&[b"SELECT", b"0"]),
            words(&[b"DEL", b"foo"]),
            words(&[b"RESTORE", b"foo", b"0", &dump(0, &string(b"bar"))]),
        ]
    );
    assert_eq!(active, Some(0));
    // the commands are out before the checksum has been looked at
    assert_eq!(l.rdbReader.nread, s.len() - 9);
    let end = full_step(&mut l, &mut active, 1000).unwrap();
    assert!(end.is_none());
    assert_eq!(l.rdbReader.nread, s.len());

    let mut l = Loader::new(s);
    assert_eq!(l.Header(), Ok(()));
    let all = full_at(&mut l, 1000).unwrap();
    assert_eq!(plain_all(&all), plain_all(&first));
}

#[test]
fn a_snapshot_is_decoded_while_it_arrives() {
    let mut s = header();
    s.push(0xfa);
    s.extend(string(b"redis-ver"));
    s.extend(string(b"5.0.0"));
    s.push(0xfe);
    s.extend(len(2));
    s.push(0xfc);
    s.extend_from_slice(&77u64.to_le_bytes());
    s.push(0);
    s.extend(string(b"foo"));
    s.extend(vec![0xc3, 6, 8, 2, b'a', b'b', b'c', (3 << 5) | 0, 2]);
    s.push(1);
    s.extend(string(b"list"));
    s.extend(len(2));
    s.extend(string(b"a"));
    s.extend(string(b"b"));
    let s = finish(s);

    let mut whole = Loader::new(s.clone());
    assert_eq!(whole.Header(), Ok(()));
    let expected = full_at(&mut whole, 50).unwrap();

    // the same bytes, one at a time: every step is taken again until the
    // bytes that it needs have arrived, and what was read is given up
    let mut l = Loader::new(Vec::new());
    let mut fed = 0;
    while l.Header() == Err(RdbError::Io) {
        l.feed(&vec![s[fed]]);
        fed += 1;
    }
    assert_eq!(fed, 9);
    let mut got: Vec<Cmd> = Vec::new();
    let mut active = None;
    loop {
        match full_step(&mut l, &mut active, 50) {
            Ok(Some(cmds)) => {
                got.extend(cmds);
                l.compact();
                assert_eq!(l.rdbReader.nread, 0);
            }
            Ok(None) => break,
            Err(RdbError::Io) => {
                assert!(fed < s.len());
                l.feed(&vec![s[fed]]);
                fed += 1;
            }
            Err(e) => panic!("decoding failed: {:?}", e),
        }
    }
    assert_eq!(fed, s.len());
    assert_eq!(plain_all(&got), plain_all(&expected));
    assert_eq!(got.len(), 5);
    assert_eq!(l.rdbReader.crc64, whole.rdbReader.crc64);
}

#[test]
fn entries_carry_expiry_idle_time_and_frequency() {
    let mut s = header();
    s.push(0xfe);
    s.extend(len(3));
    s.push(0xfb);
    s.extend(len(10));
    s.extend(len(2));
    s.push(0xfc);
    s.extend_from_slice(&1_700_000_000_123u64.to_le_bytes());
    s.push(0xf8);
    s.extend(len(77));
    s.push(0xf9);
    s.push(9);
    s.push(0);
    s.extend(string(b"k1"));
    s.extend(string(b"v1"));
    s.push(0xfd);
    s.extend_from_slice(&1_700_000_000u32.to_le_bytes());
    s.push(2);
    s.extend(string(b"k2"));
    s.extend(len(2));
    s.extend(string(b"a"));
    s.extend(string(b"b"));
    let s = finish(s);

    let mut l = Loader::new(s);
    assert_eq!(l.Header(), Ok(()));
    let mut e = BinEntry::new();
    assert_eq!(l.NextBinEntry(&mut e), Ok(()));
    assert_eq!(e.DB, 3);
    assert_eq!(e.Key, b"k1");
    assert_eq!(e.Type, 0);
    assert_eq!(e.Value, dump(0, &string(b"v1")));
    assert_eq!(e.ExpireAt, 1_700_000_000_123);
    assert_eq!(e.IdleTime, 77);
    assert_eq!(e.Freq, 9);
    assert_eq!(e.RealMemberCount, 0);
    assert_eq!(e.NeedReadLen, 1);
    let mut e = BinEntry::new();
    assert_eq!(l.NextBinEntry(&mut e), Ok(()));
    assert_eq!(e.DB, 3);
    assert_eq!(e.Key, b"k2");
    assert_eq!(e.Type, 2);
    assert_eq!(e.ExpireAt, 1_700_000_000_000);
    assert_eq!(e.IdleTime, 0);
    let mut payload = len(2);
    payload.extend(string(b"a"));
    payload.extend(string(b"b"));
    assert_eq!(e.Value, dump(2, &payload));
    let mut e = BinEntry::new();
    assert_eq!(l.NextBinEntry(&mut e), Err(RdbError::RdbEnd));
    assert_eq!(l.Footer(), Ok(()));
}

#[test]
fn the_script_cache_field_is_handed_on() {
    let mut s = header();
    s.push(0xfa);
    s.extend(string(b"lua"));
    s.extend(string(b"return 1"));
    let s = finish(s);
    let mut l = Loader::new(s);
    assert_eq!(l.Header(), Ok(()));
    let mut e = BinEntry::new();
    assert_eq!(l.NextBinEntry(&mut e), Ok(()));
    assert_eq!(e.Type, 0xfa);
    assert_eq!(e.Key, b"lua");
    assert_eq!(e.Value, b"return 1");
    let cmds = entry_commands(&e, Some(0), 0).unwrap();
    assert_eq!(plain_all(&cmds), vec![words(&[b"SCRIPT", b"load", b"return 1"])]);
}

#[test]
fn a_module_value_is_passed_over() {
    let mut s = header();
    s.push(0xf7);
    s.extend(len(1234));
    s.extend(len(2));
    s.extend(len(99));
    s.extend(len(5));
    s.extend(string(b"text"));
    s.extend(len(3));
    s.extend(vec![3, b'1', b'.', b'5']);
    s.extend(len(4));
    s.extend_from_slice(&[0; 8]);
    s.extend(len(1));
    s.extend(len(7));
    s.extend(len(9));
    s.extend(len(0));
    s.push(0);
    s.extend(string(b"k"));
    s.extend(string(b"v"));
    let s = finish(s);
    let mut l = Loader::new(s.clone());
    assert_eq!(l.Header(), Ok(()));
    let mut e = BinEntry::new();
    assert_eq!(l.NextBinEntry(&mut e), Ok(()));
    assert_eq!(e.Key, b"k");

    let mut l = Loader::new(s[12..].to_vec());
    assert_eq!(rdbLoadCheckModuleValue(&mut l), Ok(()));
    assert_eq!(l.rdbReader.nread, s.len() - 12 - 5 - 9);
    let mut l = Loader::new(vec![5, 9]);
    assert_eq!(rdbLoadCheckModuleValue(&mut l), Err(RdbError::Io));
    assert_eq!(l.rdbReader.nread, 0);
}

#[test]
fn a_flipped_byte_fails_the_checksum() {
    let mut s = header();
    s.push(0);
    s.extend(string(b"some key"));
    s.extend(string(b"some value of a few bytes"));
    let s = finish(s);
    let mut l = Loader::new(s.clone());
    assert_eq!(l.Header(), Ok(()));
    assert!(full_at(&mut l, 0).is_ok());
    // flip one byte at a time inside the key, the value and the checksum
    for at in (12..18).chain(21..40).chain(s.len() - 8..s.len()) {
        let mut bad = s.clone();
        bad[at] ^= 0x01;
        let mut l = Loader::new(bad);
        assert_eq!(l.Header(), Ok(()));
        assert_eq!(full_at(&mut l, 0).unwrap_err(), RdbError::Checksum);
    }
    let mut short = s.clone();
    short.truncate(s.len() - 1);
    let mut l = Loader::new(short);
    assert_eq!(l.Header(), Ok(()));
    assert_eq!(full_at(&mut l, 0).unwrap_err(), RdbError::Io);
}

#[test]
fn decoding_stops_at_what_it_does_not_know() {
    let mut s = header();
    s.push(6);
    s.extend(string(b"k"));
    s.extend(string(b"v"));
    let mut l = Loader::new(finish(s));
    assert_eq!(l.Header(), Ok(()));
    let mut e = BinEntry::new();
    assert_eq!(l.NextBinEntry(&mut e), Err(RdbError::UnknownObjectType));
    assert_eq!(l.rdbReader.nread, 9);
    assert_eq!(e.Key, b"");
    let mut l = Loader::new(header());
    assert_eq!(l.Header(), Ok(()));
    assert_eq!(l.NextBinEntry(&mut e), Err(RdbError::Io));
}

#[test]
fn values_of_every_type_are_taken_whole() {
    let mut zset = len(1);
    zset.extend(string(b"m"));
    zset.extend(vec![1, b'2']);
    let mut zset2 = len(1);
    zset2.extend(string(b"m"));
    zset2.extend_from_slice(&2.5f64.to_bits().to_le_bytes());
    let mut hash = len(1);
    hash.extend(string(b"f"));
    hash.extend(string(b"v"));
    let mut stream = len(1);
    stream.extend(string(b"id"));
    stream.extend(string(b"pack"));
    stream.extend(len(5));
    stream.extend(len(1));
    stream.extend(len(2));
    stream.extend(len(1));
    stream.extend(string(b"group"));
    stream.extend(len(1));
    stream.extend(len(2));
    stream.extend(len(1));
    stream.extend_from_slice(&[7; 24]);
    stream.extend(len(3));
    stream.extend(len(1));
    stream.extend(string(b"consumer"));
    stream.extend_from_slice(&[8; 8]);
    stream.extend(len(2));
    stream.extend_from_slice(&[9; 32]);
    let mut quick = len(1);
    quick.extend(string(b"not looked into"));
    let cases: Vec<(u8, Vec<u8>)> = vec![
        (0, string(b"text")),
        (1, [len(1), string(b"a")].concat()),
        (2, [len(2), string(b"a"), vec![0xc0, 5]].concat()),
        (3, zset),
        (4, hash),
        (5, zset2),
        (9, string(b"zipmap")),
        (10, string(b"ziplist")),
        (11, string(b"intset")),
        (12, string(b"ziplist")),
        (13, string(b"ziplist")),
        (14, quick),
        (15, stream),
    ];
    let mut s = header();
    for (t, payload) in &cases {
        s.push(*t);
        s.extend(string(&[b'k', *t]));
        s.extend_from_slice(payload);
    }
    let mut l = Loader::new(finish(s));
    assert_eq!(l.Header(), Ok(()));
    for (t, payload) in &cases {
        let mut e = BinEntry::new();
        assert_eq!(l.NextBinEntry(&mut e), Ok(()));
        assert_eq!(e.Type, *t);
        assert_eq!(e.Key, vec![b'k', *t]);
        assert_eq!(e.Value, dump(*t, payload));
        assert_eq!(e.RealMemberCount, 0);
    }
    let mut e = BinEntry::new();
    assert_eq!(l.NextBinEntry(&mut e), Err(RdbError::RdbEnd));
    assert_eq!(l.Footer(), Ok(()));
}

#[test]
fn an_oversized_hash_comes_in_parts() {
    let big = vec![b'x'; 17 * 1024 * 1024];
    let mut s = header();
    s.push(0xfc);
    s.extend_from_slice(&5000u64.to_le_bytes());
    s.push(4);
    s.extend(string(b"h"));
    s.extend(len(3));
    s.extend(string(b"f1"));
    s.extend(string(&big));
    s.extend(string(b"f2"));
    s.extend(string(b"v2"));
    s.extend(string(b"f3"));
    s.extend(string(b"v3"));
    s.push(0);
    s.extend(string(b"after"));
    s.extend(string(b"x"));
    let s = finish(s);

    let mut l = Loader::new(s);
    assert_eq!(l.Header(), Ok(()));
    let mut first = BinEntry::new();
    assert_eq!(l.NextBinEntry(&mut first), Ok(()));
    assert_eq!(first.Key, b"h");
    assert_eq!(first.Type, 4);
    assert_eq!(first.RealMemberCount, 1);
    assert_eq!(first.NeedReadLen, 1);
    assert_eq!(first.ExpireAt, 5000);
    assert_eq!(l.rdbReader.remainMember, 2);
    assert_eq!(l.rdbReader.totMemberCount, 3);
    let mut second = BinEntry::new();
    assert_eq!(l.NextBinEntry(&mut second), Ok(()));
    assert_eq!(second.Key, b"h");
    assert_eq!(second.Type, 4);
    assert_eq!(second.RealMemberCount, 2);
    assert_eq!(second.NeedReadLen, 0);
    assert_eq!(l.rdbReader.remainMember, 0);
    assert_eq!(first.RealMemberCount + second.RealMemberCount, 3);

    let mut cmds = entry_commands(&first, None, 0).unwrap();
    cmds.extend(entry_commands(&second, Some(0), 0).unwrap());
    assert_eq!(
        plain_all(&cmds),
        vec![
            words(&[b"SELECT", b"0"]),
            words(&[b"HSET", b"h", b"f1", &big]),
            words(&[b"HSET", b"h", b"f2", b"v2"]),
            words(&[b"HSET", b"h", b"f3", b"v3"]),
        ]
    );
    // the same hash in one piece gives the same writes
    let mut whole = len(3);
    for (f, v) in [(&b"f1"[..], &big[..]), (b"f2", b"v2"), (b"f3", b"v3")] {
        whole.extend(string(f));
        whole.extend(string(v));
    }
    let mut e = entry(4, b"h", &whole);
    e.NeedReadLen = 1;
    let unsplit = OverRestoreBigRdbEntry(&e).unwrap();
    assert_eq!(plain_all(&unsplit), plain_all(&cmds[1..]));

    let mut third = BinEntry::new();
    assert_eq!(l.NextBinEntry(&mut third), Ok(()));
    assert_eq!(third.Key, b"after");
    assert_eq!(third.RealMemberCount, 0);
    assert_eq!(l.NextBinEntry(&mut third), Err(RdbError::RdbEnd));
    assert_eq!(l.Footer(), Ok(()));
}

#[test]
fn ttl_for_a_bulk_load() {
    assert_eq!(restore_ttl(0, 12345), 0);
    assert_eq!(restore_ttl(5000, 1000), 4000);
    assert_eq!(restore_ttl(5000, 5000), 1);
    assert_eq!(restore_ttl(5000, 9000), 1);
    assert_eq!(restore_ttl(u64::MAX, 1), u64::MAX - 1);
    assert_eq!(millis_of(-5), 0);
    assert_eq!(millis_of(1_999_999), 1);
    assert_eq!(millis_of(1_700_000_000_123_456_789), 1_700_000_000_123);
    assert_eq!(millis_of(i128::MAX), u64::MAX);
}

#[test]
fn a_small_key_is_deleted_and_loaded_in_bulk() {
    let mut e = entry(0, b"foo", &string(b"bar"));
    e.ExpireAt = 10_000;
    let cmds = key_commands(&e, 4_000).unwrap();
    assert_eq!(
        plain_all(&cmds),
        vec![words(&[b"DEL", b"foo"]), words(&[b"RESTORE", b"foo", b"6000", &e.Value])]
    );
    let cmds = key_commands(&e, 10_001).unwrap();
    assert_eq!(plain(&cmds[1])[2], b"1");
    e.DB = 7;
    let cmds = entry_commands(&e, Some(7), 0).unwrap();
    assert_eq!(cmds.len(), 2);
    let cmds = entry_commands(&e, Some(6), 0).unwrap();
    assert_eq!(plain(&cmds[0]), words(&[b"SELECT", b"7"]));
    assert_eq!(cmds.len(), 3);
    let cmds = entry_commands(&e, None, 0).unwrap();
    assert_eq!(plain(&cmds[0]), words(&[b"SELECT", b"7"]));
    // a stream is loaded in bulk however large it is said to be
    let mut st = entry(15, b"s", &[0]);
    st.RealMemberCount = 3;
    let cmds = key_commands(&st, 0).unwrap();
    assert_eq!(plain(&cmds[1])[0], b"RESTORE");
}

fn ziplist(entries: &[&[u8]]) -> Vec<u8> {
    let mut zl = vec![0u8; 8];
    zl.extend_from_slice(&(entries.len() as u16).to_le_bytes());
    for e in entries {
        zl.push(0);
        zl.push(e.len() as u8);
        zl.extend_from_slice(e);
    }
    zl.push(0xff);
    zl
}

#[test]
fn a_quicklist_is_rebuilt_element_by_element() {
    let mut payload = len(2);
    payload.extend(string(&ziplist(&[b"a", b"b"])));
    payload.extend(string(&ziplist(&[b"c"])));
    let mut e = entry(14, b"q", &payload);
    assert_eq!(
        plain_all(&OverRestoreQuicklistEntry(&e).unwrap()),
        vec![
            words(&[b"RPUSH", b"q", b"a"]),
            words(&[b"RPUSH", b"q", b"b"]),
            words(&[b"RPUSH", b"q", b"c"]),
        ]
    );
    assert_eq!(
        plain_all(&OverRestoreBigRdbEntry(&e).unwrap()),
        plain_all(&OverRestoreQuicklistEntry(&e).unwrap())
    );
    let cmds = key_commands(&e, 0).unwrap();
    assert_eq!(cmds.len(), 4);
    assert_eq!(plain(&cmds[0]), words(&[b"DEL", b"q"]));
    e.ExpireAt = 99;
    let cmds = key_commands(&e, 0).unwrap();
    assert_eq!(cmds.len(), 5);
    assert_eq!(plain(&cmds[4]), words(&[b"EXPIREAT", b"q", b"99"]));
    let broken = entry(14, b"q", &[1, 3, 1, 2, 3]);
    assert_eq!(OverRestoreQuicklistEntry(&broken).unwrap_err(), RdbError::Io);
}

#[test]
fn oversized_keys_are_rebuilt_member_by_member() {
    // hash in a ziplist
    let mut e = entry(13, b"k", &string(&ziplist(&[b"f1", b"v1", b"f2", b"v2"])));
    e.RealMemberCount = 1;
    assert_eq!(
        plain_all(&key_commands(&e, 0).unwrap()),
        vec![words(&[b"HSET", b"k", b"f1", b"v1"]), words(&[b"HSET", b"k", b"f2", b"v2"])]
    );
    // sorted set in a ziplist: member before score in the bytes, score first in the command
    let e = entry(12, b"k", &string(&ziplist(&[b"m1", b"1.5", b"m2", b"2"])));
    assert_eq!(
        plain_all(&OverRestoreBigRdbEntry(&e).unwrap()),
        vec![words(&[b"ZADD", b"k", b"1.5", b"m1"]), words(&[b"ZADD", b"k", b"2", b"m2"])]
    );
    // list in a ziplist
    let e = entry(10, b"k", &string(&ziplist(&[b"a", b"b", b"c"])));
    assert_eq!(
        plain_all(&OverRestoreBigRdbEntry(&e).unwrap()),
        vec![
            words(&[b"RPUSH", b"k", b"a"]),
            words(&[b"RPUSH", b"k", b"b"]),
            words(&[b"RPUSH", b"k", b"c"]),
        ]
    );
    // intset of 16-bit members
    let set = vec![2, 0, 0, 0, 2, 0, 0, 0, 5, 0, 0xfe, 0xff];
    let e = entry(11, b"k", &string(&set));
    assert_eq!(
        plain_all(&OverRestoreBigRdbEntry(&e).unwrap()),
        vec![words(&[b"SADD", b"k", b"5"]), words(&[b"SADD", b"k", b"-2"])]
    );
    let set = vec![8, 0, 0, 0, 1, 0, 0, 0, 0, 0, 0, 0, 1, 0, 0, 0];
    let e = entry(11, b"k", &string(&set));
    assert_eq!(
        plain_all(&OverRestoreBigRdbEntry(&e).unwrap()),
        vec![words(&[b"SADD", b"k", b"4294967296"])]
    );
    // zipmap
    let zm = vec![2, 1, b'a', 1, 0, b'1', 2, b'b', b'c', 1, 1, b'2', 0, 255];
    let e = entry(9, b"k", &string(&zm));
    assert_eq!(
        plain_all(&OverRestoreBigRdbEntry(&e).unwrap()),
        vec![words(&[b"HSET", b"k", b"a", b"1"]), words(&[b"HSET", b"k", b"bc", b"2"])]
    );
    let mut counted = zm.clone();
    counted[0] = 254;
    let e = entry(9, b"k", &string(&counted));
    assert_eq!(
        plain_all(&OverRestoreBigRdbEntry(&e).unwrap()),
        vec![words(&[b"HSET", b"k", b"a", b"1"]), words(&[b"HSET", b"k", b"bc", b"2"])]
    );
    // string
    let e = entry(0, b"k", &string(b"value"));
    assert_eq!(plain_all(&OverRestoreBigRdbEntry(&e).unwrap()), vec![words(&[b"SET", b"k", b"value"])]);
    // list and set
    let payload = [len(2), string(b"a"), vec![0xc0, 0xff]].concat();
    let e = entry(1, b"k", &payload);
    assert_eq!(
        plain_all(&OverRestoreBigRdbEntry(&e).unwrap()),
        vec![words(&[b"RPUSH", b"k", b"a"]), words(&[b"RPUSH", b"k", b"-1"])]
    );
    let e = entry(2, b"k", &payload);
    assert_eq!(
        plain_all(&OverRestoreBigRdbEntry(&e).unwrap()),
        vec![words(&[b"SADD", b"k", b"a"]), words(&[b"SADD", b"k", b"-1"])]
    );
    // sorted sets with scores as text and as doubles
    let payload = [len(2), string(b"m1"), vec![3, b'1', b'.', b'5'], string(b"m2"), vec![254]].concat();
    let e = entry(3, b"k", &payload);
    assert_eq!(
        plain_all(&OverRestoreBigRdbEntry(&e).unwrap()),
        vec![words(&[b"ZADD", b"k", b"1.5", b"m1"]), words(&[b"ZADD", b"k", b"inf", b"m2"])]
    );
    let payload = [len(1), string(b"m1"), 1.5f64.to_bits().to_le_bytes().to_vec()].concat();
    let e = entry(5, b"k", &payload);
    let cmds = OverRestoreBigRdbEntry(&e).unwrap();
    assert_eq!(cmds.len(), 1);
    assert!(matches!(cmds[0].args[2], Arg::Double(bits) if f64::from_bits(bits) == 1.5));
    assert!(matches!(&cmds[0].args[3], Arg::Bytes(m) if m == b"m1"));
    // hash
    let payload = [len(2), string(b"f1"), string(b"v1"), string(b"f2"), string(b"v2")].concat();
    let mut e = entry(4, b"k", &payload);
    e.NeedReadLen = 1;
    assert_eq!(
        plain_all(&OverRestoreBigRdbEntry(&e).unwrap()),
        vec![words(&[b"HSET", b"k", b"f1", b"v1"]), words(&[b"HSET", b"k", b"f2", b"v2"])]
    );
    e.RealMemberCount = 1;
    assert_eq!(
        plain_all(&OverRestoreBigRdbEntry(&e).unwrap()),
        vec![words(&[b"HSET", b"k", b"f1", b"v1"])]
    );
    // what cannot be rebuilt
    let e = entry(15, b"k", &[0]);
    assert_eq!(OverRestoreBigRdbEntry(&e).unwrap_err(), RdbError::UnknownObjectType);
    let mut e = BinEntry::new();
    e.RealMemberCount = 1;
    assert_eq!(key_commands(&e, 0).unwrap_err(), RdbError::Io);
    let e = entry(11, b"k", &string(&[3, 0, 0, 0, 0, 0, 0, 0]));
    assert_eq!(OverRestoreBigRdbEntry(&e).unwrap_err(), RdbError::UnknownIntsetEncoding);
    let e = entry(13, b"k", &string(&[0, 0, 0, 0, 0, 0, 0, 0, 2, 0, 0, 0xc5]));
    assert_eq!(OverRestoreBigRdbEntry(&e).unwrap_err(), RdbError::UnknownZiplistHeader);
}

#[test]
fn a_replay_reads_the_clock_only_for_keys_that_expire() {
    let mut s = header();
    s.push(0xfe);
    s.extend(len(1));
    s.push(0);
    s.extend(string(b"a"));
    s.extend(string(b"1"));
    s.push(0xfe);
    s.extend(len(2));
    s.push(0);
    s.extend(string(b"b"));
    s.extend(string(b"2"));
    s.push(0);
    s.extend(string(b"c"));
    s.extend(string(b"3"));
    let s = finish(s);
    let mut l = Loader::new(s.clone());
    assert_eq!(l.Header(), Ok(()));
    let by_clock = full(&mut l).unwrap();
    let mut l = Loader::new(s);
    assert_eq!(l.Header(), Ok(()));
    let fixed = full_at(&mut l, 0).unwrap();
    assert_eq!(plain_all(&by_clock), plain_all(&fixed));
    let names: Vec<Vec<u8>> = fixed.iter().map(|c| plain(c)[0].clone()).collect();
    assert_eq!(
        names,
        words(&[b"SELECT", b"DEL", b"RESTORE", b"SELECT", b"DEL", b"RESTORE", b"DEL", b"RESTORE"])
    );
    assert_eq!(plain(&fixed[0])[1], b"1");
    assert_eq!(plain(&fixed[3])[1], b"2");
}
