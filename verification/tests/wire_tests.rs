use redis_shake_rs::errors::RdbError;
use redis_shake_rs::packed::{
    count_zipmap_items_from, int_text_at, intset_header_of, ziplist_entry_at, ziplist_length_of,
    zipmap_item_at, zipmap_item_length_at,
};
use redis_shake_rs::reader::rdbReader;
use redis_shake_rs::slice_buffer::sliceBuffer;
use redis_shake_rs::wire::{
    double_at, encoded_length_at, float_at, length_at, string_at, take, u16_at, u32_at,
    u32_be_at, u64_at, u64_be_at, u8_at,
};

#[test]
fn lengths_in_every_encoding() {
    assert_eq!(encoded_length_at(&vec![0x05], 0), Ok(((5, false), 1)));
    assert_eq!(encoded_length_at(&vec![0x3f], 0), Ok(((63, false), 1)));
    assert_eq!(encoded_length_at(&vec![0x41, 0x02], 0), Ok(((258, false), 2)));
    assert_eq!(encoded_length_at(&vec![0x7f, 0xff], 0), Ok(((16383, false), 2)));
    assert_eq!(encoded_length_at(&vec![0x80, 0, 1, 0, 0], 0), Ok(((65536, false), 5)));
    assert_eq!(
        encoded_length_at(&vec![0x81, 0, 0, 0, 0, 0xff, 0xff, 0xff, 0xff], 0),
        Ok(((u32::MAX, false), 9))
    );
    assert_eq!(encoded_length_at(&vec![0xc3], 0), Ok(((3, true), 1)));
    assert_eq!(encoded_length_at(&vec![9, 9, 0x0a], 2), Ok(((10, false), 3)));
}

#[test]
fn lengths_that_are_refused() {
    assert_eq!(encoded_length_at(&vec![], 0), Err(RdbError::Io));
    assert_eq!(encoded_length_at(&vec![0x41], 0), Err(RdbError::Io));
    assert_eq!(encoded_length_at(&vec![0x80, 0, 0, 1], 0), Err(RdbError::Io));
    assert_eq!(encoded_length_at(&vec![0x82], 0), Err(RdbError::UnknownEncodingLength));
    assert_eq!(encoded_length_at(&vec![0xbf], 0), Err(RdbError::UnknownEncodingLength));
    assert_eq!(
        encoded_length_at(&vec![0x81, 0, 0, 0, 1, 0, 0, 0, 0], 0),
        Err(RdbError::LengthOutOfRange)
    );
    assert_eq!(length_at(&vec![0xc0], 0), Err(RdbError::EncodedLength));
    assert_eq!(length_at(&vec![0x07], 0), Ok((7, 1)));
    assert_eq!(encoded_length_at(&vec![1], 5), Err(RdbError::Io));
}

#[test]
fn strings_in_every_encoding() {
    assert_eq!(string_at(&vec![3, b'b', b'a', b'r'], 0), Ok((b"bar".to_vec(), 4)));
    assert_eq!(string_at(&vec![0], 0), Ok((vec![], 1)));
    assert_eq!(string_at(&vec![0xc0, 0x7b], 0), Ok((b"123".to_vec(), 2)));
    assert_eq!(string_at(&vec![0xc0, 0xff], 0), Ok((b"-1".to_vec(), 2)));
    assert_eq!(string_at(&vec![0xc0, 0x80], 0), Ok((b"-128".to_vec(), 2)));
    assert_eq!(string_at(&vec![0xc1, 0x39, 0x30], 0), Ok((b"12345".to_vec(), 3)));
    assert_eq!(string_at(&vec![0xc1, 0x00, 0x80], 0), Ok((b"-32768".to_vec(), 3)));
    assert_eq!(string_at(&vec![0xc2, 0x15, 0xcd, 0x5b, 0x07], 0), Ok((b"123456789".to_vec(), 5)));
    assert_eq!(string_at(&vec![0xc2, 0xff, 0xff, 0xff, 0xff], 0), Ok((b"-1".to_vec(), 5)));
    // compressed: 6 bytes in, 8 bytes out
    let lzf = vec![0xc3, 6, 8, 2, b'a', b'b', b'c', (3 << 5) | 0, 2];
    assert_eq!(string_at(&lzf, 0), Ok((b"abcabcab".to_vec(), 9)));
}

#[test]
fn strings_that_are_refused() {
    assert_eq!(string_at(&vec![3, b'b', b'a'], 0), Err(RdbError::Io));
    assert_eq!(string_at(&vec![0xc4], 0), Err(RdbError::InvalidEncodedString));
    assert_eq!(string_at(&vec![0xc1, 1], 0), Err(RdbError::Io));
    assert_eq!(string_at(&vec![0xc3, 2, 8, 0, 1], 0), Ok((vec![1, 0, 0, 0, 0, 0, 0, 0], 5)));
    assert_eq!(string_at(&vec![0xc3, 3, 8, 5, 1, 2], 0), Err(RdbError::DataNotExist));
    assert_eq!(string_at(&vec![0xc3, 0xc0, 8], 0), Err(RdbError::EncodedLength));
}

#[test]
fn numbers_of_fixed_width() {
    let raw = vec![1, 2, 3, 4, 5, 6, 7, 8];
    assert_eq!(u8_at(&raw, 7), Ok((8, 8)));
    assert_eq!(u8_at(&raw, 8), Err(RdbError::Io));
    assert_eq!(u16_at(&raw, 0), Ok((0x0201, 2)));
    assert_eq!(u16_at(&raw, 7), Err(RdbError::Io));
    assert_eq!(u32_at(&raw, 4), Ok((0x08070605, 8)));
    assert_eq!(u32_at(&raw, 5), Err(RdbError::Io));
    assert_eq!(u64_at(&raw, 0), Ok((0x0807060504030201, 8)));
    assert_eq!(u64_at(&raw, 1), Err(RdbError::Io));
    assert_eq!(u32_be_at(&raw, 0), Ok((0x01020304, 4)));
    assert_eq!(u64_be_at(&raw, 0), Ok((0x0102030405060708, 8)));
    assert_eq!(take(&raw, 2, 3), Ok((vec![3, 4, 5], 5)));
    assert_eq!(take(&raw, 8, 0), Ok((vec![], 8)));
    assert_eq!(take(&raw, 9, 0), Err(RdbError::Io));
    assert_eq!(take(&raw, 2, usize::MAX), Err(RdbError::Io));
    assert_eq!(double_at(&raw, 0), Ok((0x0807060504030201, 8)));
}

#[test]
fn scores_as_text() {
    assert_eq!(float_at(&vec![3, b'1', b'.', b'5'], 0), Ok((b"1.5".to_vec(), 4)));
    assert_eq!(float_at(&vec![253], 0), Ok((b"nan".to_vec(), 1)));
    assert_eq!(float_at(&vec![254], 0), Ok((b"inf".to_vec(), 1)));
    assert_eq!(float_at(&vec![255], 0), Ok((b"-inf".to_vec(), 1)));
    assert_eq!(float_at(&vec![4, b'1'], 0), Err(RdbError::Io));
}

#[test]
fn ziplist_entries_of_every_kind() {
    // 6-bit string
    assert_eq!(ziplist_entry_at(&vec![0, 2, b'h', b'i'], 0), Ok((b"hi".to_vec(), 4)));
    // long previous length
    assert_eq!(ziplist_entry_at(&vec![254, 0, 0, 0, 0, 1, b'x'], 0), Ok((b"x".to_vec(), 7)));
    // 14-bit string
    let mut long = vec![0, 0x41, 0x00];
    long.extend(std::iter::repeat(b'a').take(256));
    assert_eq!(ziplist_entry_at(&long, 0), Ok((vec![b'a'; 256], 259)));
    // 32-bit string, length most significant byte first
    assert_eq!(ziplist_entry_at(&vec![0, 0x80, 0, 0, 0, 2, b'o', b'k'], 0), Ok((b"ok".to_vec(), 8)));
    // integers
    assert_eq!(ziplist_entry_at(&vec![0, 0xc0, 0x39, 0x30], 0), Ok((b"12345".to_vec(), 4)));
    assert_eq!(ziplist_entry_at(&vec![0, 0xc0, 0xff, 0xff], 0), Ok((b"-1".to_vec(), 4)));
    assert_eq!(ziplist_entry_at(&vec![0, 0xd0, 0, 0, 0, 0x80], 0), Ok((b"-2147483648".to_vec(), 6)));
    assert_eq!(
        ziplist_entry_at(&vec![0, 0xe0, 0xff, 0xff, 0xff, 0xff, 0xff, 0xff, 0xff, 0x7f], 0),
        Ok((b"9223372036854775807".to_vec(), 10))
    );
    assert_eq!(
        ziplist_entry_at(&vec![0, 0xe0, 0, 0, 0, 0, 0, 0, 0, 0x80], 0),
        Ok((b"-9223372036854775808".to_vec(), 10))
    );
    assert_eq!(ziplist_entry_at(&vec![0, 0xf0, 0x40, 0xe2, 0x01], 0), Ok((b"123456".to_vec(), 5)));
    assert_eq!(ziplist_entry_at(&vec![0, 0xf0, 0xff, 0xff, 0xff], 0), Ok((b"-1".to_vec(), 5)));
    assert_eq!(ziplist_entry_at(&vec![0, 0xf0, 0x00, 0x00, 0x80], 0), Ok((b"-8388608".to_vec(), 5)));
    assert_eq!(ziplist_entry_at(&vec![0, 0xfe, 0x85], 0), Ok((b"-123".to_vec(), 3)));
    assert_eq!(ziplist_entry_at(&vec![0, 0xf1], 0), Ok((b"0".to_vec(), 2)));
    assert_eq!(ziplist_entry_at(&vec![0, 0xfd], 0), Ok((b"12".to_vec(), 2)));
}

#[test]
fn ziplist_entries_that_are_refused() {
    assert_eq!(ziplist_entry_at(&vec![], 0), Err(RdbError::Io));
    assert_eq!(ziplist_entry_at(&vec![0], 0), Err(RdbError::Io));
    assert_eq!(ziplist_entry_at(&vec![254, 0, 0], 0), Err(RdbError::Io));
    assert_eq!(ziplist_entry_at(&vec![0, 0xc1], 0), Err(RdbError::UnknownZiplistHeader));
    assert_eq!(ziplist_entry_at(&vec![0, 0xe1], 0), Err(RdbError::UnknownZiplistHeader));
    assert_eq!(ziplist_entry_at(&vec![0, 3, b'a'], 0), Err(RdbError::Io));
    assert_eq!(ziplist_entry_at(&vec![0, 0x80, 0xff, 0xff, 0xff, 0xff, 1], 0), Err(RdbError::Io));
    assert_eq!(ziplist_entry_at(&vec![0, 0xf0, 1, 2], 0), Err(RdbError::Io));
}

#[test]
fn ziplist_length_is_behind_eight_bytes() {
    let zl = vec![0, 0, 0, 0, 0, 0, 0, 0, 0x02, 0x01, 0xff];
    assert_eq!(ziplist_length_of(&zl), Ok((258, 10)));
    assert_eq!(ziplist_length_of(&vec![0; 9]), Err(RdbError::Io));
}

#[test]
fn zipmap_items_and_their_lengths() {
    assert_eq!(zipmap_item_length_at(&vec![3], 0, false), Ok(((3, 0), 1)));
    assert_eq!(zipmap_item_length_at(&vec![3, 2], 0, true), Ok(((3, 2), 2)));
    assert_eq!(zipmap_item_length_at(&vec![253, 0, 0, 1, 0, 7], 0, true), Ok(((256, 7), 6)));
    assert_eq!(zipmap_item_length_at(&vec![254], 0, false), Err(RdbError::InvalidZipmapItemLength));
    assert_eq!(zipmap_item_length_at(&vec![255], 0, false), Ok(((-1, 1), 1)));
    assert_eq!(
        zipmap_item_length_at(&vec![253, 0x80, 0, 0, 0, 0], 0, false),
        Err(RdbError::LengthOutOfRange)
    );
    assert_eq!(zipmap_item_at(&vec![2, b'a', b'b'], 0, false), Ok((b"ab".to_vec(), 3)));
    assert_eq!(zipmap_item_at(&vec![2, 1, b'a', b'b', 0], 0, true), Ok((b"ab".to_vec(), 5)));
    assert_eq!(zipmap_item_at(&vec![2, 1, b'a', b'b'], 0, true), Err(RdbError::Io));
    assert_eq!(zipmap_item_at(&vec![255], 0, false), Ok((vec![], 1)));
}

#[test]
fn zipmap_items_are_counted() {
    // two pairs: "a" => "1" (no unused bytes), "bc" => "2" with one unused byte
    let zm = vec![2, 1, b'a', 1, 0, b'1', 2, b'b', b'c', 1, 1, b'2', 0, 255];
    assert_eq!(count_zipmap_items_from(&zm, 1), Ok(4));
    assert_eq!(count_zipmap_items_from(&vec![255], 0), Ok(0));
    assert_eq!(count_zipmap_items_from(&vec![1, b'a'], 0), Err(RdbError::Io));
}

#[test]
fn intset_header_and_members() {
    let set = vec![2, 0, 0, 0, 3, 0, 0, 0, 1, 0, 0xff, 0xff, 0, 0x80];
    assert_eq!(intset_header_of(&set), Ok(((2, 3), 8)));
    assert_eq!(int_text_at(&set, 8, 2), Ok((b"1".to_vec(), 10)));
    assert_eq!(int_text_at(&set, 10, 2), Ok((b"-1".to_vec(), 12)));
    assert_eq!(int_text_at(&set, 12, 2), Ok((b"-32768".to_vec(), 14)));
    assert_eq!(int_text_at(&set, 13, 2), Err(RdbError::Io));
    assert_eq!(intset_header_of(&vec![3, 0, 0, 0, 0, 0, 0, 0]), Err(RdbError::UnknownIntsetEncoding));
    assert_eq!(intset_header_of(&vec![4, 0, 0, 0, 0]), Err(RdbError::Io));
}

#[test]
fn the_reader_advances_and_checksums_what_it_reads() {
    let raw = vec![3, b'b', b'a', b'r', 0x41, 0x02, 0xc0, 0x07, 1, 2, 3, 4, 5, 6, 7, 8];
    let mut r = rdbReader::new(raw.clone());
    assert_eq!(r.ReadString(), Ok(b"bar".to_vec()));
    assert_eq!(r.nread, 4);
    assert_eq!(r.crc64, crc64::crc64(0, &raw[..4]));
    assert_eq!(r.ReadLength(), Ok(258));
    assert_eq!(r.readEncodedLength(), Ok((0, true)));
    assert_eq!(r.ReadByte(), Ok(7));
    assert_eq!(r.crc64, crc64::crc64(0, &raw[..8]));
    assert_eq!(r.readUint16(), Ok(0x0201));
    assert_eq!(r.ReadBytes(2), Ok(vec![3, 4]));
    assert_eq!(r.readUint32(), Ok(0x08070605));
    assert_eq!(r.nread, 16);
    assert_eq!(r.crc64, crc64::crc64(0, &raw));
    assert!(r.buf.is_empty());
}

#[test]
fn a_failed_read_leaves_the_reader() {
    let mut r = rdbReader::new(vec![5, b'a', b'b']);
    assert_eq!(r.ReadString(), Err(RdbError::Io));
    assert_eq!(r.nread, 0);
    assert_eq!(r.crc64, 0);
    assert_eq!(r.readUint64(), Err(RdbError::Io));
    assert_eq!(r.readUint32BigEndian(), Err(RdbError::Io));
    assert_eq!(r.readUint64BigEndian(), Err(RdbError::Io));
    assert_eq!(r.ReadDouble(), Err(RdbError::Io));
    assert_eq!(r.ReadFloat(), Err(RdbError::Io));
    assert_eq!(r.readUint8(), Ok(5));
    assert_eq!(r.nread, 1);
}

#[test]
fn the_reader_collects_the_bytes_of_a_value() {
    // a list of two strings
    let raw = vec![2, 1, b'a', 2, b'b', b'c', 0xff];
    let mut r = rdbReader::new(raw.clone());
    assert_eq!(r.readObjectValue(1), Ok(raw[..6].to_vec()));
    assert!(r.is_cache_buf);
    assert_eq!(r.buf, raw[..6].to_vec());
    assert_eq!(r.nread, 6);
    assert_eq!(r.lastReadCount, 0);
    assert_eq!(r.remainMember, 0);
    let mut bad = rdbReader::new(vec![1, 2]);
    assert_eq!(bad.readObjectValue(6), Err(RdbError::UnknownObjectType));
    assert!(!bad.is_cache_buf);
    assert_eq!(bad.nread, 0);
}

#[test]
fn packed_values_are_read_through_a_buffer() {
    let mut r = rdbReader::new(vec![]);
    let mut zl = vec![0u8; 8];
    zl.extend_from_slice(&[2, 0, 0, 1, b'a', 3, 0xfe, 0x05, 0xff]);
    let mut buf = sliceBuffer::new(zl);
    assert_eq!(r.ReadZiplistLength(&mut buf), Ok(2));
    assert_eq!(buf.pos(), 10);
    assert_eq!(r.ReadZiplistEntry(&mut buf), Ok(b"a".to_vec()));
    assert_eq!(r.ReadZiplistEntry(&mut buf), Ok(b"5".to_vec()));
    assert_eq!(buf.pos(), 16);
    assert_eq!(r.ReadZiplistEntry(&mut buf), Err(RdbError::Io));
    assert_eq!(buf.pos(), 16);

    let zm = vec![1, 1, b'k', 1, 1, b'v', 9, 255];
    let mut buf = sliceBuffer::new(zm);
    assert_eq!(buf.ReadByte(), Ok(1));
    assert_eq!(r.CountZipmapItems(&mut buf), Ok(2));
    assert_eq!(buf.pos(), 0);
    assert_eq!(buf.Seek(1, 0), Ok(1));
    assert_eq!(r.readZipmapItemLength(&mut buf, false), Ok((1, 0)));
    assert_eq!(buf.Seek(1, 0), Ok(1));
    assert_eq!(r.ReadZipmapItem(&mut buf, false), Ok(b"k".to_vec()));
    assert_eq!(r.ReadZipmapItem(&mut buf, true), Ok(b"v".to_vec()));
    assert_eq!(buf.pos(), 7);
    assert_eq!(r.ReadZipmapItem(&mut buf, false), Ok(vec![]));
    assert_eq!(buf.pos(), 8);
}
