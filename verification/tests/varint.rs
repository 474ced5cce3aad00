use mc_router::varint::{read_varint, write_varint};

#[test]
fn writes_known_varints() {
    assert_eq!(write_varint(0), vec![0x00]);
    assert_eq!(write_varint(1), vec![0x01]);
    assert_eq!(write_varint(127), vec![0x7f]);
    assert_eq!(write_varint(128), vec![0x80, 0x01]);
    assert_eq!(write_varint(255), vec![0xff, 0x01]);
    assert_eq!(write_varint(25565), vec![0xdd, 0xc7, 0x01]);
    assert_eq!(write_varint(2097151), vec![0xff, 0xff, 0x7f]);
    assert_eq!(write_varint(2147483647), vec![0xff, 0xff, 0xff, 0xff, 0x07]);
    assert_eq!(write_varint(u32::MAX), vec![0xff, 0xff, 0xff, 0xff, 0x0f]);
    assert_eq!(write_varint(0x8000_0000), vec![0x80, 0x80, 0x80, 0x80, 0x08]);
}

#[test]
fn reads_known_varints() {
    assert_eq!(read_varint(&[0x00], 0), Some((0, 1)));
    assert_eq!(read_varint(&[0x7f], 0), Some((127, 1)));
    assert_eq!(read_varint(&[0xdd, 0xc7, 0x01], 0), Some((25565, 3)));
    assert_eq!(read_varint(&[0xff, 0xff, 0xff, 0xff, 0x07], 0), Some((i32::MAX, 5)));
    assert_eq!(read_varint(&[0xff, 0xff, 0xff, 0xff, 0x0f], 0), Some((-1, 5)));
    assert_eq!(read_varint(&[0x80, 0x80, 0x80, 0x80, 0x08], 0), Some((i32::MIN, 5)));
}

#[test]
fn reads_at_an_offset() {
    assert_eq!(read_varint(&[0xff, 0x05, 0x80, 0x01, 0x09], 2), Some((128, 2)));
    assert_eq!(read_varint(&[0x05], 1), None);
    assert_eq!(read_varint(&[0x05], 2), None);
    assert_eq!(read_varint(&[0x05], usize::MAX), None);
}

#[test]
fn longer_forms_are_accepted() {
    assert_eq!(read_varint(&[0x81, 0x00], 0), Some((1, 2)));
    assert_eq!(read_varint(&[0x80, 0x80, 0x80, 0x80, 0x00], 0), Some((0, 5)));
}

#[test]
fn bits_past_the_word_are_lost() {
    assert_eq!(read_varint(&[0x80, 0x80, 0x80, 0x80, 0x70], 0), Some((0, 5)));
    assert_eq!(read_varint(&[0x81, 0x80, 0x80, 0x80, 0x7f], 0), Some((-268435455, 5)));
}

#[test]
fn too_wide_varint_is_not_read() {
    assert_eq!(read_varint(&[0x80, 0x80, 0x80, 0x80, 0x80, 0x00], 0), None);
    assert_eq!(read_varint(&[0xff; 9], 2), None);
}

#[test]
fn written_values_are_read_back() {
    for value in [0u32, 1, 127, 128, 16383, 16384, 2097152, 268435455, 268435456, 1 << 31, u32::MAX] {
        let mut bytes = vec![0xaa];
        bytes.extend(write_varint(value));
        let end = bytes.len();
        bytes.push(0x55);
        assert_eq!(read_varint(&bytes, 1), Some((value as i32, end - 1)));
        for kept in 1..end {
            assert_eq!(read_varint(&bytes[..kept], 1), None);
        }
    }
}
