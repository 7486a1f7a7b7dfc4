use redis_shake_rs::errors::RdbError;
use redis_shake_rs::slice_buffer::sliceBuffer;

#[test]
fn slice_takes_bytes_and_moves_the_cursor() {
    let mut b = sliceBuffer::new(vec![1, 2, 3, 4, 5]);
    assert_eq!(b.Slice(2), Ok(vec![1, 2]));
    assert_eq!(b.pos(), 2);
    assert_eq!(b.Slice(3), Ok(vec![3, 4, 5]));
    assert_eq!(b.Slice(1), Err(RdbError::Io));
    assert_eq!(b.pos(), 5);
}

#[test]
fn slice_of_nothing_and_of_a_negative_count() {
    let mut b = sliceBuffer::new(vec![1, 2, 3]);
    assert_eq!(b.Slice(0), Ok(vec![]));
    assert_eq!(b.pos(), 0);
    assert_eq!(b.Slice(-1), Err(RdbError::Io));
    assert_eq!(b.pos(), 0);
    assert_eq!(b.Slice(4), Err(RdbError::Io));
    assert_eq!(b.pos(), 0);
}

#[test]
fn read_byte_walks_to_the_end() {
    let mut b = sliceBuffer::new(vec![7, 8]);
    assert_eq!(b.ReadByte(), Ok(7));
    assert_eq!(b.ReadByte(), Ok(8));
    assert_eq!(b.ReadByte(), Err(RdbError::Io));
    assert_eq!(b.pos(), 2);
    assert_eq!(b.len(), 2);
}

#[test]
fn read_fills_the_destination_and_leaves_the_cursor() {
    let mut b = sliceBuffer::new(vec![1, 2, 3, 4, 5]);
    assert_eq!(b.Seek(1, 0), Ok(1));
    let mut p = vec![0u8; 3];
    assert_eq!(b.Read(&mut p), Ok(3));
    assert_eq!(p, vec![2, 3, 4]);
    assert_eq!(b.pos(), 1);
}

#[test]
fn read_refuses_an_empty_destination_and_a_short_buffer() {
    let mut b = sliceBuffer::new(vec![1, 2, 3]);
    let mut empty: Vec<u8> = vec![];
    assert_eq!(b.Read(&mut empty), Err(RdbError::NilRead));
    let mut p = vec![9u8; 4];
    assert_eq!(b.Read(&mut p), Err(RdbError::Io));
    assert_eq!(p, vec![9, 9, 9, 9]);
    assert_eq!(b.Seek(0, 2), Ok(3));
    let mut one = vec![0u8; 1];
    assert_eq!(b.Read(&mut one), Err(RdbError::Io));
}

#[test]
fn seek_from_start_cursor_and_end() {
    let mut b = sliceBuffer::new(vec![0; 10]);
    assert_eq!(b.Seek(4, 0), Ok(4));
    assert_eq!(b.Seek(3, 1), Ok(7));
    assert_eq!(b.Seek(-2, 1), Ok(5));
    assert_eq!(b.Seek(-1, 2), Ok(9));
    assert_eq!(b.Seek(5, 2), Ok(15));
    assert_eq!(b.pos(), 15);
    assert_eq!(b.ReadByte(), Err(RdbError::Io));
}

#[test]
fn seek_failures_leave_the_cursor() {
    let mut b = sliceBuffer::new(vec![0; 10]);
    assert_eq!(b.Seek(2, 0), Ok(2));
    assert_eq!(b.Seek(0, 3), Err(RdbError::InvalidWhence));
    assert_eq!(b.Seek(-3, 1), Err(RdbError::NegativePosition));
    assert_eq!(b.Seek(1 << 31, 0), Err(RdbError::PositionOutOfRange));
    assert_eq!(b.Seek((1 << 31) - 1, 0), Ok((1 << 31) - 1));
    assert_eq!(b.Seek(1, 1), Err(RdbError::PositionOutOfRange));
    assert_eq!(b.Seek(i64::MIN, 2), Err(RdbError::NegativePosition));
    assert_eq!(b.pos(), i32::MAX);
}

#[test]
fn place_puts_the_cursor() {
    let mut b = sliceBuffer::new(vec![1, 2, 3]);
    assert_eq!(b.place(2), Ok(()));
    assert_eq!(b.ReadByte(), Ok(3));
    assert_eq!(b.place(1usize << 31), Err(RdbError::PositionOutOfRange));
    assert_eq!(b.pos(), 3);
    assert_eq!(b.raw(), &vec![1, 2, 3]);
}
