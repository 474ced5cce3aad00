//! Strings and packet frames of the Minecraft protocol.

use crate::varint;
use vstd::prelude::*;

verus! {

/// The length field in front of `size` bytes: the low 32 bits of the size.
pub open spec fn length_field(size: nat) -> Seq<u8> {
    varint::encode(size % 0x1_0000_0000)
}

/// A protocol string: the length of its UTF-8 encoding, then that encoding.
pub open spec fn string_field(text: Seq<char>) -> Seq<u8> {
    length_field(vstd::utf8::encode_utf8(text).len()) + vstd::utf8::encode_utf8(text)
}

/// A packet on the wire: the length of its body, then the body.
pub open spec fn frame(body: Seq<u8>) -> Seq<u8> {
    length_field(body.len()) + body
}

fn low_32_bits(size: usize) -> (result: u32)
    ensures
        result == size as nat % 0x1_0000_0000,
{
    let wide: u64 = size as u64;
    assert(wide as u32 == wide % 0x1_0000_0000) by (bit_vector);
    wide as u32
}

/// Writes a protocol string.
pub fn write_string(s: &str) -> (out: Vec<u8>)
    ensures
        out@ == string_field(s@),
{
    let utf8: &[u8] = s.as_bytes();
    let mut out: Vec<u8> = varint::write_varint(low_32_bits(utf8.len()));
    let ghost length = out@;
    out.extend_from_slice(utf8);
    assert(out@ =~= length + utf8@);
    out
}

/// Puts the length of `body` in front of it.
pub fn write_frame(body: Vec<u8>) -> (out: Vec<u8>)
    ensures
        out@ == frame(body@),
{
    let mut body: Vec<u8> = body;
    let mut out: Vec<u8> = varint::write_varint(low_32_bits(body.len()));
    out.append(&mut body);
    out
}

/// A string is read back: its length in bytes, then the bytes, which encode the text
/// and nothing else.
pub proof fn law_string_read_back(before: Seq<u8>, text: Seq<char>, after: Seq<u8>)
    requires
        vstd::utf8::encode_utf8(text).len() < 0x8000_0000,
    ensures
        varint::varint_at(before + string_field(text) + after, before.len() as int) matches Some(
            (length, used),
        ) && {
            let start = before.len() + used;
            let bytes = (before + string_field(text) + after).subrange(start as int, start + length);
            &&& length == vstd::utf8::encode_utf8(text).len()
            &&& used + length == string_field(text).len()
            &&& bytes == vstd::utf8::encode_utf8(text)
            &&& vstd::utf8::valid_utf8(bytes)
            &&& vstd::utf8::decode_utf8(bytes) == text
        },
{
    let utf8 = vstd::utf8::encode_utf8(text);
    let field = string_field(text);
    let length = varint::encode(utf8.len());
    assert(before + field + after =~= before + length + (utf8 + after));
    varint::law_varint_read_back(before, utf8.len() as u32, utf8 + after);
    let start = (before.len() + length.len()) as int;
    assert((before + field + after).subrange(start, start + utf8.len()) =~= utf8);
    vstd::utf8::encode_utf8_valid_utf8(text);
    vstd::utf8::encode_utf8_decode_utf8(text);
}

/// The length field in front of a string or a packet is the VarInt of the size that follows
/// it, to the last byte, of which 32 bits are kept.
pub proof fn law_length_goes_first(text: Seq<char>, body: Seq<u8>)
    ensures
        string_field(text) == varint::encode(
            vstd::utf8::encode_utf8(text).len() % 0x1_0000_0000,
        ) + vstd::utf8::encode_utf8(text),
        frame(body) == varint::encode(body.len() % 0x1_0000_0000) + body,
{
}

/// A packet is read back: the length of its body, then the body.
pub proof fn law_frame_read_back(body: Seq<u8>, after: Seq<u8>)
    requires
        body.len() < 0x8000_0000,
    ensures
        varint::varint_at(frame(body) + after, 0) matches Some((length, used)) && length
            == body.len() && (frame(body) + after).subrange(used as int, used + length) == body
            && (frame(body) + after).skip(used + length) == after,
{
    let length = varint::encode(body.len());
    assert(frame(body) + after =~= Seq::empty() + length + (body + after));
    varint::law_varint_read_back(Seq::empty(), body.len() as u32, body + after);
    assert((frame(body) + after).subrange(length.len() as int, (length.len() + body.len()) as int)
        =~= body);
    assert((frame(body) + after).skip((length.len() + body.len()) as int) =~= after);
}

/// A string and a packet are written with their length in bytes in front and nothing else.
pub proof fn law_written_with_length(s: &str, field: Vec<u8>, body: Vec<u8>, packet: Vec<u8>)
    requires
        call_ensures(write_string, (s,), field),
        call_ensures(write_frame, (body,), packet),
    ensures
        field@ == varint::encode(vstd::utf8::encode_utf8(s@).len() % 0x1_0000_0000)
            + vstd::utf8::encode_utf8(s@),
        packet@ == varint::encode(body@.len() % 0x1_0000_0000) + body@,
{
}

} // verus!
