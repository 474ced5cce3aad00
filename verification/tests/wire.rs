use mc_router::transfer::build_transfer_packets;
use mc_router::varint::read_varint;
use mc_router::wire::{write_frame, write_string};

#[test]
fn string_is_length_and_utf8() {
    assert_eq!(write_string(""), vec![0]);
    assert_eq!(write_string("abc"), vec![3, b'a', b'b', b'c']);
    assert_eq!(write_string("é€"), vec![5, 0xc3, 0xa9, 0xe2, 0x82, 0xac]);
    let long = "x".repeat(300);
    let bytes = write_string(&long);
    assert_eq!(&bytes[..2], &[0xac, 0x02]);
    assert_eq!(&bytes[2..], long.as_bytes());
}

#[test]
fn frame_is_length_and_body() {
    assert_eq!(write_frame(vec![]), vec![0]);
    assert_eq!(write_frame(vec![7, 8]), vec![2, 7, 8]);
}

#[test]
fn transfer_packets_byte_for_byte() {
    let mut expected = vec![19, 0x02];
    expected.extend_from_slice(&[0u8; 16]);
    expected.extend_from_slice(&[0, 0]);
    expected.extend_from_slice(&[14, 0x0b, 9]);
    expected.extend_from_slice(b"localhost");
    expected.extend_from_slice(&[0xdd, 0xc7, 0x01]);
    assert_eq!(build_transfer_packets("localhost", 25565), expected);
}

#[test]
fn transfer_packets_are_read_back() {
    let host = "backend.example.net".repeat(20);
    let bytes = build_transfer_packets(&host, 80);
    assert_eq!(read_varint(&bytes, 0), Some((19, 1)));
    assert_eq!(read_varint(&bytes, 1), Some((2, 1)));
    let (length, used) = read_varint(&bytes, 20).unwrap();
    assert_eq!(20 + used + length as usize, bytes.len());
    assert_eq!(read_varint(&bytes, 20 + used), Some((0x0b, 1)));
    let (size, size_used) = read_varint(&bytes, 21 + used).unwrap();
    let start = 21 + used + size_used;
    let end = start + size as usize;
    assert_eq!(&bytes[start..end], host.as_bytes());
    assert_eq!(read_varint(&bytes, end), Some((80, 1)));
    assert_eq!(end + 1, bytes.len());
}
