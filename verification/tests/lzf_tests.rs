use redis_shake_rs::errors::RdbError;
use redis_shake_rs::lzf::lzfDecompress;

fn literals(x: &[u8]) -> Vec<u8> {
    let mut out = Vec::new();
    for chunk in x.chunks(32) {
        out.push((chunk.len() - 1) as u8);
        out.extend_from_slice(chunk);
    }
    out
}

#[test]
fn lzf_literal_run_of_thirty_two() {
    let data: Vec<u8> = (0..32u8).collect();
    let mut input = vec![31u8];
    input.extend_from_slice(&data);
    assert_eq!(lzfDecompress(&input, 32), Ok(data));
}

#[test]
fn lzf_literals_round_trip() {
    let data: Vec<u8> = (0..200u32).map(|i| (i * 7 % 251) as u8).collect();
    assert_eq!(lzfDecompress(&literals(&data), data.len()), Ok(data));
}

#[test]
fn lzf_back_reference_copies_what_was_produced() {
    // "abc" as literals, then 5 bytes from 3 back: the copy overlaps itself.
    let input = vec![2, b'a', b'b', b'c', (3 << 5) | 0, 2];
    assert_eq!(lzfDecompress(&input, 8), Ok(b"abcabcab".to_vec()));
}

#[test]
fn lzf_back_reference_of_distance_one_repeats_a_byte() {
    let input = vec![0, b'x', (1 << 5) | 0, 0];
    assert_eq!(lzfDecompress(&input, 4), Ok(b"xxxx".to_vec()));
}

#[test]
fn lzf_extended_length_marker() {
    // length field 7 with an extension byte of 1: 7 + 1 + 2 = 10 bytes.
    let input = vec![1, b'a', b'b', (7 << 5) | 0, 1, 1];
    assert_eq!(lzfDecompress(&input, 12), Ok(b"abababababab".to_vec()));
}

#[test]
fn lzf_extended_length_of_zero() {
    // length field 7 with an extension byte of 0: 9 bytes.
    let input = vec![0, b'z', (7 << 5) | 0, 0, 0];
    assert_eq!(lzfDecompress(&input, 10), Ok(vec![b'z'; 10]));
}

#[test]
fn lzf_far_back_reference() {
    let mut data: Vec<u8> = (0..300u32).map(|i| (i % 256) as u8).collect();
    let mut input = literals(&data);
    // 3 bytes from 300 back: distance - 1 = 299 = 1 * 256 + 43.
    input.push((1 << 5) | 1);
    input.push(43);
    let head: Vec<u8> = data[0..3].to_vec();
    data.extend_from_slice(&head);
    assert_eq!(lzfDecompress(&input, 303), Ok(data));
}

#[test]
fn lzf_short_output_is_filled_with_zeros() {
    let input = vec![1, b'h', b'i'];
    assert_eq!(lzfDecompress(&input, 5), Ok(vec![b'h', b'i', 0, 0, 0]));
    assert_eq!(lzfDecompress(&vec![], 2), Ok(vec![0, 0]));
    assert_eq!(lzfDecompress(&vec![], 0), Ok(vec![]));
}

#[test]
fn lzf_refuses_corrupt_data() {
    // literal run cut short
    assert_eq!(lzfDecompress(&vec![3, 1, 2], 10), Err(RdbError::DataNotExist));
    // more output than room
    assert_eq!(lzfDecompress(&vec![1, 1, 2], 1), Err(RdbError::DataNotExist));
    // back-reference before the first byte
    assert_eq!(lzfDecompress(&vec![0, 1, 32, 1], 10), Err(RdbError::DataNotExist));
    // back-reference without its distance byte
    assert_eq!(lzfDecompress(&vec![0, 1, 32], 10), Err(RdbError::DataNotExist));
    // extended length without its bytes
    assert_eq!(lzfDecompress(&vec![0, 1, 7 << 5, 0], 20), Err(RdbError::DataNotExist));
    // back-reference that would overflow the output
    assert_eq!(lzfDecompress(&vec![0, 1, 32, 0], 3), Err(RdbError::DataNotExist));
}
