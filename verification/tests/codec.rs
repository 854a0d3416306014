use filecast::codec::FrameError;
use filecast::codec::decode;
use filecast::codec::encode;

fn be64(n: u64) -> Vec<u8> {
    let mut v = Vec::new();
    let mut shift = 56i32;
    while shift >= 0 {
        v.push(((n >> shift) & 0xff) as u8);
        shift -= 8;
    }
    v
}

#[test]
fn encode_lays_out_contents_name_trailer() {
    let name = b"ab".to_vec();
    let contents = b"xyz".to_vec();
    let frame = encode(&name, &contents);
    let mut expected = b"xyzab".to_vec();
    expected.extend(be64(2));
    assert_eq!(frame, expected);
}

#[test]
fn round_trip_plain() {
    let name = b"hello.txt".to_vec();
    let contents = b"some file bytes".to_vec();
    let frame = encode(&name, &contents);
    let (n, c) = decode(&frame).unwrap();
    assert_eq!(n, name);
    assert_eq!(c, contents);
}

#[test]
fn round_trip_empty_contents() {
    let name = b"empty.bin".to_vec();
    let contents = Vec::new();
    let frame = encode(&name, &contents);
    let (n, c) = decode(&frame).unwrap();
    assert_eq!(n, name);
    assert_eq!(c, contents);
}

#[test]
fn round_trip_non_ascii_name() {
    let name = vec![0xC3u8, 0xA9, 0xFF, 0x00, 0x80];
    let contents = vec![0u8, 1, 2, 3, 255];
    let frame = encode(&name, &contents);
    let (n, c) = decode(&frame).unwrap();
    assert_eq!(n, name);
    assert_eq!(c, contents);
}

#[test]
fn round_trip_empty_name_and_contents() {
    let frame = encode(&Vec::new(), &Vec::new());
    assert_eq!(frame.len(), 8);
    let (n, c) = decode(&frame).unwrap();
    assert!(n.is_empty());
    assert!(c.is_empty());
}

#[test]
fn decode_rejects_short_input() {
    assert_eq!(decode(&Vec::new()), Err(FrameError::TooShort));
    assert_eq!(decode(&vec![1u8, 2, 3, 4, 5, 6, 7]), Err(FrameError::TooShort));
}

#[test]
fn decode_rejects_oversized_name_length() {
    // declares a 9-byte name but only one byte remains
    let mut frame = b"x".to_vec();
    frame.extend(be64(9));
    assert_eq!(decode(&frame), Err(FrameError::NameLength));
    // a huge declared length must not panic either
    let mut frame2 = b"abc".to_vec();
    frame2.extend(be64(u64::MAX));
    assert_eq!(decode(&frame2), Err(FrameError::NameLength));
}

#[test]
fn decode_accepts_exact_boundary() {
    // whole remainder is the name
    let mut frame = b"name".to_vec();
    frame.extend(be64(4));
    let (n, c) = decode(&frame).unwrap();
    assert_eq!(n, b"name".to_vec());
    assert!(c.is_empty());
}
