use redis_shake_rs::checksum::{checksum, crc64_range, crc64_update};
use redis_shake_rs::cmd::{bytes_are, cmd_to_string, copy_bytes, Arg, Cmd};
use redis_shake_rs::decimal::{i64_to_dec, parse_i64, u64_to_dec};
use redis_shake_rs::endian::{read_be_u32, read_be_u64, read_le_u16, read_le_u32, read_le_u64};
use redis_shake_rs::errors::{ErrorClass, RdbError};

#[test]
fn cmd_to_string_of_a_hash_write() {
    assert_eq!(
        cmd_to_string(vec!["hset", "a123", "b", "c"]),
        "*4\r\n$4\r\nhset\r\n$4\r\na123\r\n$1\r\nb\r\n$1\r\nc\r\n"
    );
}

#[test]
fn cmd_to_string_counts_bytes_not_characters() {
    assert_eq!(cmd_to_string(vec!["é"]), "*1\r\n$2\r\né\r\n");
    assert_eq!(cmd_to_string(vec![]), "*0\r\n");
    assert_eq!(cmd_to_string(vec![""]), "*1\r\n$0\r\n\r\n");
}

#[test]
fn cmd_to_string_with_long_arguments() {
    let long = "x".repeat(12345);
    let args: Vec<&str> = vec!["set", "k", &long, "a", "b", "c", "d", "e", "f", "g", "h"];
    let text = cmd_to_string(args);
    assert!(text.starts_with("*11\r\n$3\r\nset\r\n$1\r\nk\r\n$12345\r\nxxx"));
    assert!(text.ends_with("$1\r\nh\r\n"));
}

#[test]
fn checksum_of_the_check_string() {
    assert_eq!(checksum(&b"123456789".to_vec()), 0xe9c6d914c4b8d9ca);
    assert_eq!(checksum(&vec![]), 0);
}

#[test]
fn checksum_in_steps_is_the_checksum_at_once() {
    let data = b"12345 6789 and some more bytes".to_vec();
    let first = crc64_range(0, &data, 0, 7);
    let second = crc64_range(first, &data, 7, data.len());
    assert_eq!(second, checksum(&data));
    assert_eq!(second, crc64::crc64(0, &data));
    assert_eq!(crc64_update(first, &data[7..].to_vec()), second);
}

#[test]
fn decimal_text_of_numbers() {
    assert_eq!(u64_to_dec(0), b"0".to_vec());
    assert_eq!(u64_to_dec(7), b"7".to_vec());
    assert_eq!(u64_to_dec(1234567890), b"1234567890".to_vec());
    assert_eq!(u64_to_dec(u64::MAX), b"18446744073709551615".to_vec());
    assert_eq!(i64_to_dec(-1), b"-1".to_vec());
    assert_eq!(i64_to_dec(i64::MIN), b"-9223372036854775808".to_vec());
    assert_eq!(i64_to_dec(i64::MAX), b"9223372036854775807".to_vec());
}

#[test]
fn decimal_text_is_read_back() {
    assert_eq!(parse_i64(&b"0".to_vec()), Some(0));
    assert_eq!(parse_i64(&b"-42".to_vec()), Some(-42));
    assert_eq!(parse_i64(&b"+42".to_vec()), Some(42));
    assert_eq!(parse_i64(&b"0007".to_vec()), Some(7));
    assert_eq!(parse_i64(&b"9223372036854775807".to_vec()), Some(i64::MAX));
    assert_eq!(parse_i64(&b"-9223372036854775808".to_vec()), Some(i64::MIN));
    assert_eq!(parse_i64(&b"9223372036854775808".to_vec()), None);
    assert_eq!(parse_i64(&b"-9223372036854775809".to_vec()), None);
    assert_eq!(parse_i64(&b"99999999999999999999999".to_vec()), None);
    assert_eq!(parse_i64(&b"".to_vec()), None);
    assert_eq!(parse_i64(&b"-".to_vec()), None);
    assert_eq!(parse_i64(&b"12a".to_vec()), None);
    assert_eq!(parse_i64(&b" 12".to_vec()), None);
    for v in [0i64, 1, -1, 10, -10, 99, 100, 65535, -65536, i64::MAX, i64::MIN] {
        assert_eq!(parse_i64(&i64_to_dec(v)), Some(v));
    }
}

#[test]
fn fixed_width_numbers() {
    let raw = vec![0x01, 0x02, 0x03, 0x04, 0x05, 0x06, 0x07, 0x08, 0x09];
    assert_eq!(read_le_u16(&raw, 1), 0x0302);
    assert_eq!(read_le_u32(&raw, 0), 0x04030201);
    assert_eq!(read_le_u64(&raw, 1), 0x0908070605040302);
    assert_eq!(read_be_u32(&raw, 0), 0x01020304);
    assert_eq!(read_be_u64(&raw, 0), 0x0102030405060708);
}

#[test]
fn commands_are_built_argument_by_argument() {
    let c = Cmd::named("ZADD").arg(b"k".to_vec()).arg_double(0x3ff8000000000000).arg_number(12).arg_text("m");
    assert_eq!(c.args.len(), 5);
    assert!(matches!(&c.args[0], Arg::Bytes(b) if b == b"ZADD"));
    assert!(matches!(&c.args[1], Arg::Bytes(b) if b == b"k"));
    assert!(matches!(&c.args[2], Arg::Double(0x3ff8000000000000)));
    assert!(matches!(&c.args[3], Arg::Bytes(b) if b == b"12"));
    assert!(matches!(&c.args[4], Arg::Bytes(b) if b == b"m"));
    let d = c.duplicate();
    assert_eq!(format!("{:?}", d), format!("{:?}", c));
    assert!(!c.is_empty());
    assert!(Cmd::new().is_empty());
}

#[test]
fn bytes_are_compared_with_text() {
    assert!(bytes_are(&b"lua".to_vec(), "lua"));
    assert!(!bytes_are(&b"luA".to_vec(), "lua"));
    assert!(!bytes_are(&b"lu".to_vec(), "lua"));
    assert_eq!(copy_bytes(&vec![1, 2, 3]), vec![1, 2, 3]);
}

#[test]
fn errors_are_classed() {
    assert_eq!(RdbError::Io.class(), ErrorClass::Connection);
    assert_eq!(RdbError::Checksum.class(), ErrorClass::Checksum);
    assert_eq!(RdbError::RdbEnd.class(), ErrorClass::End);
    assert_eq!(RdbError::Protocol.class(), ErrorClass::Protocol);
    assert_eq!(RdbError::ResyncRejected.class(), ErrorClass::Resync);
    assert_eq!(RdbError::DataNotExist.class(), ErrorClass::Decode);
    assert_eq!(RdbError::UnknownObjectType.class(), ErrorClass::Decode);
    assert_eq!(RdbError::UnknownZiplistHeader.class(), ErrorClass::Decode);
    assert!(RdbError::RdbEnd.is_end());
    assert!(!RdbError::Io.is_end());
}
