use mini_bitcask::codec::{decode_header, encode, get_be32, put_be32, StoreError, ValueLen};
use mini_bitcask::data_file::frame_entry;
use mini_bitcask::order::{lex_order, Order};

#[test]
fn encode_frames_key_and_value() {
    assert_eq!(
        encode(b"key", Some(b"value")),
        Ok(vec![0, 0, 0, 3, 0, 0, 0, 5, b'k', b'e', b'y', b'v', b'a', b'l', b'u', b'e'])
    );
}

#[test]
fn encode_tombstone_has_negative_length_and_no_value() {
    assert_eq!(encode(b"key", None), Ok(vec![0, 0, 0, 3, 0xFF, 0xFF, 0xFF, 0xFF, b'k', b'e', b'y']));
}

#[test]
fn empty_key_and_empty_value_are_not_absent() {
    assert_eq!(encode(b"", Some(b"")), Ok(vec![0, 0, 0, 0, 0, 0, 0, 0]));
    assert_eq!(encode(b"", None), Ok(vec![0, 0, 0, 0, 0xFF, 0xFF, 0xFF, 0xFF]));
    assert_eq!(decode_header(&[0, 0, 0, 0, 0, 0, 0, 0]), Ok((0, ValueLen::Len(0))));
    assert_eq!(decode_header(&[0, 0, 0, 0, 0xFF, 0xFF, 0xFF, 0xFF]), Ok((0, ValueLen::Tombstone)));
}

#[test]
fn lengths_are_big_endian() {
    let key = vec![7u8; 0x0102];
    let value = vec![9u8; 0x01_0203];
    let record = encode(&key, Some(&value)).unwrap();
    assert_eq!(&record[..8], &[0, 0, 0x01, 0x02, 0, 0x01, 0x02, 0x03]);
    assert_eq!(record.len(), 8 + 0x0102 + 0x01_0203);
    assert_eq!(decode_header(&record), Ok((0x0102, ValueLen::Len(0x01_0203))));
}

#[test]
fn decode_header_needs_eight_bytes() {
    assert_eq!(decode_header(&[]), Err(StoreError::Framing));
    assert_eq!(decode_header(&[0, 0, 0, 1, 0, 0, 0]), Err(StoreError::Framing));
    assert_eq!(decode_header(&[0, 0, 0, 1, 0, 0, 0, 2]), Ok((1, ValueLen::Len(2))));
    // Bytes after the header are not looked at.
    assert_eq!(decode_header(&[0, 0, 0, 1, 0, 0, 0, 2, 9, 9, 9]), Ok((1, ValueLen::Len(2))));
}

#[test]
fn decode_header_reads_the_sign_of_the_second_field() {
    assert_eq!(
        decode_header(&[0xFF, 0xFF, 0xFF, 0xFF, 0x7F, 0xFF, 0xFF, 0xFF]),
        Ok((u32::MAX, ValueLen::Len(0x7FFF_FFFF)))
    );
    assert_eq!(decode_header(&[0, 0, 0, 0, 0x80, 0, 0, 0]), Ok((0, ValueLen::Tombstone)));
    assert_eq!(decode_header(&[0, 0, 0, 0, 0xFF, 0xFF, 0xFF, 0xFE]), Ok((0, ValueLen::Tombstone)));
}

#[test]
fn decode_after_encode_gives_the_lengths() {
    let record = encode(b"some key", Some(b"some value")).unwrap();
    assert_eq!(decode_header(&record), Ok((8, ValueLen::Len(10))));
    assert_eq!(&record[8..16], b"some key");
    assert_eq!(&record[16..], b"some value");
    let record = encode(b"some key", None).unwrap();
    assert_eq!(decode_header(&record), Ok((8, ValueLen::Tombstone)));
    assert_eq!(record.len(), 16);
}

#[test]
fn be32_round_trip() {
    let mut out = vec![0xAA];
    put_be32(&mut out, 0x0102_0304);
    put_be32(&mut out, u32::MAX);
    put_be32(&mut out, 0);
    assert_eq!(out, vec![0xAA, 1, 2, 3, 4, 0xFF, 0xFF, 0xFF, 0xFF, 0, 0, 0, 0]);
    assert_eq!(get_be32(&out, 1), 0x0102_0304);
    assert_eq!(get_be32(&out, 5), u32::MAX);
    assert_eq!(get_be32(&out, 9), 0);
}

#[test]
fn value_of_two_gibibytes_is_too_large() {
    let value = vec![0u8; 0x8000_0000];
    assert_eq!(encode(b"k", Some(&value)), Err(StoreError::ValueTooLarge));
    assert_eq!(frame_entry(b"k", Some(&value)), Err(StoreError::ValueTooLarge));
}

#[test]
fn lexicographic_order_of_bytes() {
    assert_eq!(lex_order(b"", b""), Order::Equal);
    assert_eq!(lex_order(b"", b"a"), Order::Less);
    assert_eq!(lex_order(b"a", b""), Order::Greater);
    assert_eq!(lex_order(b"abc", b"abd"), Order::Less);
    assert_eq!(lex_order(b"abc", b"ab"), Order::Greater);
    assert_eq!(lex_order(b"ab", b"abc"), Order::Less);
    assert_eq!(lex_order(&[0x7F], &[0x80]), Order::Less);
    assert_eq!(lex_order(&[0xFF], &[0x00, 0xFF]), Order::Greater);
    assert_eq!(lex_order(b"same", b"same"), Order::Equal);
}
