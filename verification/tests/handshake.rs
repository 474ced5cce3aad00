use mc_router::handshake::{
    parse_handshake, read_handshake, receive, try_parse_handshake, HandshakeError, Progress,
    ReadStep, MAX_HANDSHAKE_BYTES,
};
use mc_router::varint::write_varint;
use mc_router::wire::{write_frame, write_string};

fn packet(protocol: i32, address: &str, next_state: i32) -> Vec<u8> {
    let mut body = vec![0x00];
    body.extend(write_varint(protocol as u32));
    body.extend(write_string(address));
    body.extend_from_slice(&[0x63, 0xdd]);
    body.extend(write_varint(next_state as u32));
    write_frame(body)
}

fn parsed(bytes: &[u8]) -> (i32, String, i32) {
    let hs = try_parse_handshake(bytes).unwrap().unwrap();
    (hs.protocol_version, hs.server_address, hs.next_state)
}

#[test]
fn handshake_byte_for_byte() {
    let bytes = [
        0x10, 0x00, 0xfe, 0x05, 0x09, b'l', b'o', b'c', b'a', b'l', b'h', b'o', b's', b't', 0x63,
        0xdd, 0x02,
    ];
    assert_eq!(parsed(&bytes), (766, "localhost".to_string(), 2));
    assert_eq!(&packet(766, "localhost", 2)[..], &bytes[..]);
}

#[test]
fn handshake_fields_are_read_back() {
    for (protocol, next_state) in [(47, 1), (765, 2), (767, 3), (-1, -2), (i32::MIN, i32::MAX)] {
        let mut bytes = packet(protocol, "play.example.com", next_state);
        bytes.extend_from_slice(b"login start");
        assert_eq!(parsed(&bytes), (protocol, "play.example.com".to_string(), next_state));
    }
}

#[test]
fn every_strict_prefix_waits() {
    let bytes = packet(766, "play.example.com", 2);
    for kept in 0..bytes.len() {
        assert!(matches!(try_parse_handshake(&bytes[..kept]), Ok(None)));
    }
    assert!(matches!(try_parse_handshake(&bytes), Ok(Some(_))));
}

#[test]
fn address_is_put_in_lower_case() {
    assert_eq!(parsed(&packet(1, "Play.EXAMPLE.com", 1)).1, "play.example.com");
    assert_eq!(parsed(&packet(1, "ÄÖ.Example", 1)).1, "äö.example");
    assert_eq!(parsed(&packet(1, "[Z@`{", 1)).1, "[z@`{");
}

#[test]
fn forge_marker_is_ignored() {
    assert_eq!(parsed(&packet(1, "Host\0FML2\0", 1)).1, "host");
    assert_eq!(parsed(&packet(1, "host\0FML:\0", 1)).1, "host");
    assert_eq!(parsed(&packet(1, "\0FML\0", 1)).1, "");
}

#[test]
fn port_suffix_is_ignored() {
    assert_eq!(parsed(&packet(1, "Host:25565", 1)).1, "host");
    assert_eq!(parsed(&packet(1, "host:25565\0FML\0", 1)).1, "host");
    assert_eq!(parsed(&packet(1, ":25565", 1)).1, "");
    assert_eq!(parsed(&packet(1, "::1", 1)).1, "");
}

#[test]
fn wrong_packet_id_is_rejected() {
    assert!(matches!(
        try_parse_handshake(&[0x01, 0x05]),
        Err(HandshakeError::UnexpectedPacket(5))
    ));
    assert!(matches!(
        try_parse_handshake(&[0x05, 0xff, 0xff, 0xff, 0xff, 0x0f]),
        Err(HandshakeError::UnexpectedPacket(-1))
    ));
}

#[test]
fn address_must_be_utf8() {
    let bytes = [0x07, 0x00, 0x01, 0x01, 0xff, 0x00, 0x00, 0x01];
    assert!(matches!(try_parse_handshake(&bytes), Err(HandshakeError::AddressNotUtf8)));
    let cut = [0x07, 0x00, 0x01, 0x01, 0xc3, 0x00, 0x00, 0x01];
    assert!(matches!(try_parse_handshake(&cut), Err(HandshakeError::AddressNotUtf8)));
}

#[test]
fn later_bytes_change_nothing() {
    let mut complete = packet(766, "host", 2);
    complete.extend_from_slice(&[0xff; 40]);
    assert_eq!(parsed(&complete), (766, "host".to_string(), 2));
    let mut rejected = vec![0x01, 0x05];
    rejected.extend_from_slice(&[0x00; 40]);
    assert!(matches!(
        try_parse_handshake(&rejected),
        Err(HandshakeError::UnexpectedPacket(5))
    ));
}

#[test]
fn fields_may_lie_behind_a_short_frame() {
    // The frame says one byte, but the fields are read wherever they are.
    let mut bytes = packet(766, "host", 2);
    bytes[0] = 1;
    assert_eq!(parsed(&bytes), (766, "host".to_string(), 2));
    let cut = bytes.len() - 1;
    assert!(matches!(try_parse_handshake(&bytes[..cut]), Ok(None)));
}

#[test]
fn malformed_varint_waits() {
    assert!(matches!(try_parse_handshake(&[0xff; 20]), Ok(None)));
}

#[test]
fn negative_lengths_never_complete() {
    // Length i32::MIN.
    let huge = [0x80, 0x80, 0x80, 0x80, 0x08, 0x00, 0x01, 0x01, b'a', 0, 0, 1];
    assert!(matches!(try_parse_handshake(&huge), Ok(None)));
    // Length -6 ends at the very top of the address space.
    let top = [0xfa, 0xff, 0xff, 0xff, 0x0f, 0x00, 0x01, 0x01, b'a', 0, 0, 1];
    assert!(matches!(parse_handshake(&top), Progress::Incomplete));
    // Lengths -5 and -1 end beyond it.
    let beyond = [0xfb, 0xff, 0xff, 0xff, 0x0f, 0x00, 0x01, 0x01, b'a', 0, 0, 1];
    assert!(matches!(parse_handshake(&beyond), Progress::Overflow));
    let minus_one = [0xff, 0xff, 0xff, 0xff, 0x0f, 0x00];
    assert!(matches!(try_parse_handshake(&minus_one), Ok(None)));
    assert!(matches!(
        read_handshake(&minus_one),
        ReadStep::Fail(HandshakeError::LengthOverflow)
    ));
    // The same for the length of the address.
    let address = [0x08, 0x00, 0x01, 0xff, 0xff, 0xff, 0xff, 0x0f, 0x00];
    assert!(matches!(parse_handshake(&address), Progress::Overflow));
    assert!(matches!(try_parse_handshake(&address), Ok(None)));
    let low = [0x08, 0x00, 0x01, 0x80, 0x80, 0x80, 0x80, 0x08, 0x00];
    assert!(matches!(parse_handshake(&low), Progress::Incomplete));
}

#[test]
fn partial_frames_of_any_packet_wait() {
    for body in [vec![0x05, 1, 2, 3], vec![0x00, 0x01, 0x01, 0xff, 0, 0, 1], vec![0; 200]] {
        let bytes = write_frame(body);
        for kept in 0..bytes.len() {
            assert!(matches!(parse_handshake(&bytes[..kept]), Progress::Incomplete));
        }
    }
}

#[test]
fn reading_asks_for_more_and_finishes() {
    let bytes = packet(766, "Host", 2);
    let mut buf = Vec::new();
    assert!(matches!(read_handshake(&buf), ReadStep::Receive));
    for (i, byte) in bytes.iter().enumerate() {
        assert!(matches!(read_handshake(&buf), ReadStep::Receive));
        assert!(receive(&mut buf, &[*byte]).is_ok());
        assert_eq!(&buf[..], &bytes[..=i]);
    }
    match read_handshake(&buf) {
        ReadStep::Finish(hs) => assert_eq!(hs.server_address, "host"),
        step => panic!("{step:?}"),
    }
}

#[test]
fn reading_fails_with_the_packet() {
    assert!(matches!(
        read_handshake(&[0x01, 0x07]),
        ReadStep::Fail(HandshakeError::UnexpectedPacket(7))
    ));
}

#[test]
fn closed_connection_is_an_error() {
    let mut buf = vec![1, 2, 3];
    assert_eq!(receive(&mut buf, &[]), Err(HandshakeError::Closed));
    assert_eq!(buf, vec![1, 2, 3]);
    assert_eq!(receive(&mut buf, &[4, 5]), Ok(()));
    assert_eq!(buf, vec![1, 2, 3, 4, 5]);
}

#[test]
fn full_buffer_is_given_up() {
    // A frame that promises 5000 bytes.
    let mut buf = write_varint(5000);
    buf.resize(MAX_HANDSHAKE_BYTES - 1, 0);
    assert!(matches!(read_handshake(&buf), ReadStep::Receive));
    buf.push(0);
    assert!(matches!(
        read_handshake(&buf),
        ReadStep::Fail(HandshakeError::BufferFull(4096))
    ));
    buf.resize(4600, 0);
    assert!(matches!(
        read_handshake(&buf),
        ReadStep::Fail(HandshakeError::BufferFull(4600))
    ));
}

#[test]
fn complete_handshake_may_fill_the_buffer_but_no_more() {
    let mut buf = packet(766, "host", 2);
    buf.resize(4096, 0);
    assert!(matches!(read_handshake(&buf), ReadStep::Finish(_)));
    buf.push(0);
    assert!(matches!(
        read_handshake(&buf),
        ReadStep::Fail(HandshakeError::BufferFull(4097))
    ));
}

#[test]
fn read_over_the_limit_drops_the_connection() {
    // The handshake would be complete with the last read.
    let bytes = packet(766, &"a".repeat(4500), 2);
    let mut buf = bytes[..4095].to_vec();
    assert!(matches!(read_handshake(&buf), ReadStep::Receive));
    let rest = &bytes[4095..];
    assert_eq!(
        receive(&mut buf, rest),
        Err(HandshakeError::BufferFull(bytes.len()))
    );
    assert_eq!(buf, bytes);
    assert!(matches!(
        read_handshake(&buf),
        ReadStep::Fail(HandshakeError::BufferFull(n)) if n == bytes.len()
    ));
}

#[test]
fn handshake_may_end_at_the_limit() {
    let bytes = packet(766, &"a".repeat(4086), 2);
    assert_eq!(bytes.len(), 4096);
    let mut buf = Vec::new();
    for chunk in bytes.chunks(512) {
        assert!(matches!(read_handshake(&buf), ReadStep::Receive));
        assert_eq!(receive(&mut buf, chunk), Ok(()));
    }
    assert!(matches!(read_handshake(&buf), ReadStep::Finish(_)));
}

#[test]
fn chunks_do_not_matter() {
    let mut bytes = packet(767, "Host:1", 2);
    bytes.extend_from_slice(&[0x55; 6000]);
    for size in [1, 2, 3, 7, 16, 512] {
        let mut buf = Vec::new();
        let mut chunks = bytes.chunks(size);
        let hs = loop {
            match read_handshake(&buf) {
                ReadStep::Receive => assert!(receive(&mut buf, chunks.next().unwrap()).is_ok()),
                ReadStep::Finish(hs) => break hs,
                step => panic!("{step:?}"),
            }
        };
        assert_eq!((hs.protocol_version, hs.next_state), (767, 2));
        assert_eq!(hs.server_address, "host");
        assert_eq!(&buf[..], &bytes[..buf.len()]);
    }
}

#[test]
fn buffer_is_bounded() {
    // A frame that promises more than it ever gets.
    let mut bytes = write_varint(1_000_000);
    bytes.resize(10_000, 0);
    for size in [1, 100, 511, 512] {
        let mut buf = Vec::new();
        let mut chunks = bytes.chunks(size);
        while let ReadStep::Receive = read_handshake(&buf) {
            let result = receive(&mut buf, chunks.next().unwrap());
            assert_eq!(result.is_ok(), buf.len() <= 4096);
        }
        assert!(buf.len() >= 4096 && buf.len() < 4096 + 512);
        assert_eq!(&buf[..], &bytes[..buf.len()]);
        assert!(matches!(
            read_handshake(&buf),
            ReadStep::Fail(HandshakeError::BufferFull(n)) if n == buf.len()
        ));
    }
}
