//! The Handshake packet: what a client sends first, and how it is collected from
//! the bytes of a connection.

use crate::text;
use crate::varint;
use crate::wire;
use vstd::prelude::*;

verus! {

/// No legitimate handshake comes anywhere close to this many bytes.
pub const MAX_HANDSHAKE_BYTES: usize = 4096;

/// How many bytes a connection is asked for at a time.
pub const READ_CHUNK_BYTES: usize = 512;

/// A parsed Handshake packet.
#[derive(Debug)]
pub struct Handshake {
    pub protocol_version: i32,
    /// The host name the client typed, cleaned: lower case, without port or Forge suffix.
    pub server_address: String,
    /// 1 is a status ping, 2 a login, 3 a transfer.
    pub next_state: i32,
}

/// The content of a [`Handshake`].
pub struct HandshakeFields {
    pub protocol_version: i32,
    pub server_address: Seq<char>,
    pub next_state: i32,
}

impl View for Handshake {
    type V = HandshakeFields;

    open spec fn view(&self) -> HandshakeFields {
        HandshakeFields {
            protocol_version: self.protocol_version,
            server_address: self.server_address@,
            next_state: self.next_state,
        }
    }
}

/// Why a connection does not get past its handshake.
#[derive(Debug, Clone, Copy, PartialEq, Eq, Structural)]
pub enum HandshakeError {
    /// The first packet has this ID, not that of a Handshake.
    UnexpectedPacket(i32),
    /// The server address is not valid UTF-8.
    AddressNotUtf8,
    /// This many bytes came, too many for a handshake.
    BufferFull(usize),
    /// A length field points past the end of the address space.
    LengthOverflow,
    /// The connection was closed before the handshake was complete.
    Closed,
}

/// What the bytes received so far amount to.
pub enum Reading {
    Incomplete,
    Complete(HandshakeFields),
    Rejected(HandshakeError),
    /// A length field so large that the end it points to has no address.
    Overflow,
}

/// The size that a length field asks for: a negative length counts down from the
/// top of the address space, which is more than any buffer holds.
pub open spec fn extent(length: i32) -> int {
    if length >= 0 {
        length as int
    } else {
        usize::MAX + 1 + length
    }
}

/// The host name in a raw server address: the Forge marker (from the first NUL on)
/// and a port (from the first colon on) are cut off, the rest put in lower case.
pub open spec fn clean_address(raw: Seq<char>) -> Seq<char> {
    text::lowercase(text::before(text::before(raw, '\0'), ':'))
}

/// The packet read from the server address on, which starts at `offset`.
pub open spec fn reading_from_address(bytes: Seq<u8>, offset: int, protocol_version: i32) -> Reading {
    match varint::varint_at(bytes, offset) {
        None => Reading::Incomplete,
        Some((length, used)) => {
            let start = offset + used;
            let end = start + extent(length);
            if end > usize::MAX {
                Reading::Overflow
            } else if length < 0 || bytes.len() < end {
                Reading::Incomplete
            } else if !vstd::utf8::valid_utf8(bytes.subrange(start, end)) {
                Reading::Rejected(HandshakeError::AddressNotUtf8)
            } else if bytes.len() < end + 2 {
                Reading::Incomplete
            } else {
                match varint::varint_at(bytes, end + 2) {
                    None => Reading::Incomplete,
                    Some((next_state, _)) => Reading::Complete(
                        HandshakeFields {
                            protocol_version,
                            server_address: clean_address(
                                vstd::utf8::decode_utf8(bytes.subrange(start, end)),
                            ),
                            next_state,
                        },
                    ),
                }
            }
        },
    }
}

/// The packet read from its ID on, which starts at `offset`.
pub open spec fn reading_from_id(bytes: Seq<u8>, offset: int) -> Reading {
    match varint::varint_at(bytes, offset) {
        None => Reading::Incomplete,
        Some((id, used)) => if id != 0 {
            Reading::Rejected(HandshakeError::UnexpectedPacket(id))
        } else {
            match varint::varint_at(bytes, offset + used) {
                None => Reading::Incomplete,
                Some((protocol_version, more)) => reading_from_address(
                    bytes,
                    offset + used + more,
                    protocol_version,
                ),
            }
        },
    }
}

/// What `bytes`, the first of a connection, amount to: a frame length, the packet
/// ID, the protocol version, the server address with its length in front, a port of
/// two bytes and the next state. Nothing is looked at before the whole frame is there.
pub open spec fn reading(bytes: Seq<u8>) -> Reading {
    match varint::varint_at(bytes, 0) {
        None => Reading::Incomplete,
        Some((length, used)) => if used + extent(length) > usize::MAX {
            Reading::Overflow
        } else if length < 0 || bytes.len() < used + extent(length) {
            Reading::Incomplete
        } else {
            reading_from_id(bytes, used as int)
        },
    }
}

/// What the bytes received so far amount to, as [`parse_handshake`] tells it.
#[derive(Debug)]
pub enum Progress {
    Incomplete,
    Complete(Handshake),
    Rejected(HandshakeError),
    Overflow,
}

impl View for Progress {
    type V = Reading;

    open spec fn view(&self) -> Reading {
        match self {
            Progress::Incomplete => Reading::Incomplete,
            Progress::Complete(handshake) => Reading::Complete(handshake@),
            Progress::Rejected(error) => Reading::Rejected(*error),
            Progress::Overflow => Reading::Overflow,
        }
    }
}

fn byte_extent(length: i32) -> (result: usize)
    ensures
        result == extent(length),
{
    if length >= 0 {
        length as usize
    } else {
        usize::MAX - (-(length + 1)) as usize
    }
}

/// Reads the first packet of a connection out of the bytes buffered so far.
pub fn parse_handshake(buf: &[u8]) -> (result: Progress)
    ensures
        result@ == reading(buf@),
{
    let (frame_length, frame_used) = match varint::read_varint(buf, 0) {
        Some(found) => found,
        None => return Progress::Incomplete,
    };
    let mut offset: usize = frame_used;
    let frame_extent: usize = byte_extent(frame_length);
    if frame_extent > usize::MAX - offset {
        return Progress::Overflow;
    }
    if frame_length < 0 || buf.len() < offset + frame_extent {
        return Progress::Incomplete;
    }
    let (id, id_used) = match varint::read_varint(buf, offset) {
        Some(found) => found,
        None => return Progress::Incomplete,
    };
    if id != 0 {
        return Progress::Rejected(HandshakeError::UnexpectedPacket(id));
    }
    offset = offset + id_used;

    let (protocol_version, protocol_used) = match varint::read_varint(buf, offset) {
        Some(found) => found,
        None => return Progress::Incomplete,
    };
    offset = offset + protocol_used;

    let (address_length, address_used) = match varint::read_varint(buf, offset) {
        Some(found) => found,
        None => return Progress::Incomplete,
    };
    offset = offset + address_used;
    let address_extent: usize = byte_extent(address_length);
    if address_extent > usize::MAX - offset {
        return Progress::Overflow;
    }
    let address_end: usize = offset + address_extent;
    if address_length < 0 || buf.len() < address_end {
        return Progress::Incomplete;
    }
    let raw_address: &str = match text::utf8_text(&buf[offset..address_end]) {
        Some(address) => address,
        None => return Progress::Rejected(HandshakeError::AddressNotUtf8),
    };

    // The server port, two bytes, is of no use here.
    if buf.len() - address_end < 2 {
        return Progress::Incomplete;
    }
    let (next_state, _) = match varint::read_varint(buf, address_end + 2) {
        Some(found) => found,
        None => return Progress::Incomplete,
    };

    let host: &str = text::cut_before(text::cut_before(raw_address, '\0'), ':');
    Progress::Complete(
        Handshake { protocol_version, server_address: host.to_lowercase(), next_state },
    )
}

/// Tries to parse a Handshake out of the bytes buffered so far; `Ok(None)` when more
/// bytes are needed, or would be to reach the end that a negative length points to.
pub fn try_parse_handshake(buf: &[u8]) -> (result: Result<Option<Handshake>, HandshakeError>)
    ensures
        match reading(buf@) {
            Reading::Incomplete | Reading::Overflow => result == Ok::<Option<Handshake>, HandshakeError>(None),
            Reading::Complete(fields) => result matches Ok(Some(handshake)) && handshake@ == fields,
            Reading::Rejected(error) => result == Err::<Option<Handshake>, HandshakeError>(error),
        },
{
    match parse_handshake(buf) {
        Progress::Complete(handshake) => Ok(Some(handshake)),
        Progress::Rejected(error) => Err(error),
        _ => Ok(None),
    }
}

/// What a connection does next on its way through the handshake.
pub enum Next {
    Finish(HandshakeFields),
    Receive,
    Fail(HandshakeError),
}

/// What follows from the bytes received so far. More than the limit on handshakes are
/// too many, whatever they hold.
pub open spec fn next_step(bytes: Seq<u8>) -> Next {
    if bytes.len() > MAX_HANDSHAKE_BYTES {
        Next::Fail(HandshakeError::BufferFull(bytes.len() as usize))
    } else {
        match reading(bytes) {
            Reading::Complete(fields) => Next::Finish(fields),
            Reading::Rejected(error) => Next::Fail(error),
            Reading::Overflow => Next::Fail(HandshakeError::LengthOverflow),
            Reading::Incomplete => if bytes.len() == MAX_HANDSHAKE_BYTES {
                Next::Fail(HandshakeError::BufferFull(MAX_HANDSHAKE_BYTES))
            } else {
                Next::Receive
            },
        }
    }
}

/// What a connection does next, as [`read_handshake`] tells it.
#[derive(Debug)]
pub enum ReadStep {
    /// The handshake is complete.
    Finish(Handshake),
    /// Read up to [`READ_CHUNK_BYTES`] more bytes and hand them to [`receive`].
    Receive,
    /// Give the connection up.
    Fail(HandshakeError),
}

impl View for ReadStep {
    type V = Next;

    open spec fn view(&self) -> Next {
        match self {
            ReadStep::Finish(handshake) => Next::Finish(handshake@),
            ReadStep::Receive => Next::Receive,
            ReadStep::Fail(error) => Next::Fail(*error),
        }
    }
}

/// Decides, from all bytes received so far, whether the handshake is complete, has
/// failed, or needs more bytes.
pub fn read_handshake(buf: &[u8]) -> (step: ReadStep)
    ensures
        step@ == next_step(buf@),
        step is Finish ==> buf@.len() <= MAX_HANDSHAKE_BYTES,
{
    if buf.len() > MAX_HANDSHAKE_BYTES {
        return ReadStep::Fail(HandshakeError::BufferFull(buf.len()));
    }
    match parse_handshake(buf) {
        Progress::Complete(handshake) => ReadStep::Finish(handshake),
        Progress::Rejected(error) => ReadStep::Fail(error),
        Progress::Overflow => ReadStep::Fail(HandshakeError::LengthOverflow),
        Progress::Incomplete => if buf.len() == MAX_HANDSHAKE_BYTES {
            ReadStep::Fail(HandshakeError::BufferFull(MAX_HANDSHAKE_BYTES))
        } else {
            ReadStep::Receive
        },
    }
}

/// Appends what a read gave to the bytes received so far. A read that gave nothing
/// means that the client is gone; one that takes the buffer over the limit on
/// handshakes, that the connection is to be dropped.
pub fn receive(buf: &mut Vec<u8>, chunk: &[u8]) -> (result: Result<(), HandshakeError>)
    ensures
        final(buf)@ == old(buf)@ + chunk@,
        chunk@.len() == 0 ==> result == Err::<(), HandshakeError>(HandshakeError::Closed),
        chunk@.len() > 0 && final(buf)@.len() <= MAX_HANDSHAKE_BYTES ==> result is Ok,
        chunk@.len() > 0 && final(buf)@.len() > MAX_HANDSHAKE_BYTES ==> result == Err::<
            (),
            HandshakeError,
        >(HandshakeError::BufferFull(final(buf)@.len() as usize)),
{
    buf.extend_from_slice(chunk);
    assert(buf@ =~= old(buf)@ + chunk@);
    if chunk.len() == 0 {
        return Err(HandshakeError::Closed);
    }
    if buf.len() > MAX_HANDSHAKE_BYTES {
        return Err(HandshakeError::BufferFull(buf.len()));
    }
    Ok(())
}

proof fn lemma_address_is_final(bytes: Seq<u8>, offset: int, protocol_version: i32, more: Seq<u8>)
    requires
        !(reading_from_address(bytes, offset, protocol_version) is Incomplete),
    ensures
        reading_from_address(bytes + more, offset, protocol_version) == reading_from_address(
            bytes,
            offset,
            protocol_version,
        ),
{
    varint::law_varint_is_final(bytes, offset, more);
    if let Some((length, used)) = varint::varint_at(bytes, offset) {
        let start = offset + used;
        let end = start + extent(length);
        if end <= usize::MAX {
            assert((bytes + more).subrange(start, end) =~= bytes.subrange(start, end));
            if vstd::utf8::valid_utf8(bytes.subrange(start, end)) {
                varint::law_varint_is_final(bytes, end + 2, more);
            }
        }
    }
}

/// Once the bytes received amount to something, whatever arrives later does not
/// change it.
#[verifier::spinoff_prover]
#[verifier::rlimit(60)]
pub proof fn law_reading_is_final(bytes: Seq<u8>, more: Seq<u8>)
    requires
        !(reading(bytes) is Incomplete),
    ensures
        reading(bytes + more) == reading(bytes),
{
    varint::law_varint_is_final(bytes, 0, more);
    if let Some((length, used)) = varint::varint_at(bytes, 0) {
        if used + extent(length) <= usize::MAX {
            varint::law_varint_is_final(bytes, used as int, more);
            if let Some((id, id_used)) = varint::varint_at(bytes, used as int) {
                if id == 0 {
                    varint::law_varint_is_final(bytes, (used + id_used) as int, more);
                    if let Some((protocol_version, protocol_used)) = varint::varint_at(
                        bytes,
                        (used + id_used) as int,
                    ) {
                        lemma_address_is_final(
                            bytes,
                            (used + id_used + protocol_used) as int,
                            protocol_version,
                            more,
                        );
                    }
                }
            }
        }
    }
}

/// The body of the Handshake packet that a client sends.
pub open spec fn packet_body(
    protocol_version: i32,
    address: Seq<char>,
    port_high: u8,
    port_low: u8,
    next_state: i32,
) -> Seq<u8> {
    varint::encode(0) + varint::encode(protocol_version as u32 as nat) + wire::string_field(address)
        + seq![port_high, port_low] + varint::encode(next_state as u32 as nat)
}

/// The same bytes, seen from each field of a packet.
proof fn lemma_regroup(
    length: Seq<u8>,
    id: Seq<u8>,
    protocol: Seq<u8>,
    field: Seq<u8>,
    port: Seq<u8>,
    next: Seq<u8>,
    more: Seq<u8>,
)
    ensures
        ({
            let body = id + protocol + field + port + next;
            let bytes = length + body + more;
            &&& bytes == Seq::empty() + length + (body + more)
            &&& bytes == length + id + (protocol + field + port + next + more)
            &&& bytes == length + id + protocol + (field + port + next + more)
            &&& bytes == length + id + protocol + field + (port + next + more)
            &&& bytes == length + id + protocol + field + port + next + more
        }),
{
    let body = id + protocol + field + port + next;
    let bytes = length + body + more;
    assert(bytes =~= Seq::empty() + length + (body + more));
    assert(bytes =~= length + id + (protocol + field + port + next + more));
    assert(bytes =~= length + id + protocol + (field + port + next + more));
    assert(bytes =~= length + id + protocol + field + (port + next + more));
    assert(bytes =~= length + id + protocol + field + port + next + more);
}

/// The packet from its server address on, which stands behind `front`.
proof fn lemma_read_address(
    front: Seq<u8>,
    protocol_version: i32,
    address: Seq<char>,
    port: Seq<u8>,
    next_state: i32,
    more: Seq<u8>,
)
    requires
        port.len() == 2,
        front.len() <= 100,
        wire::string_field(address).len() < 0x8000_0000,
    ensures
        reading_from_address(
            front + wire::string_field(address) + port + varint::encode(next_state as u32 as nat)
                + more,
            front.len() as int,
            protocol_version,
        ) == Reading::Complete(
            HandshakeFields { protocol_version, server_address: clean_address(address), next_state },
        ),
{
    let field = wire::string_field(address);
    let next = varint::encode(next_state as u32 as nat);
    let bytes = front + field + port + next + more;
    let to_port = front + field + port;
    assert(vstd::utf8::encode_utf8(address).len() <= field.len());
    assert(bytes =~= front + field + (port + next + more));
    wire::law_string_read_back(front, address, port + next + more);
    assert(varint::varint_at(bytes, to_port.len() as int) == Some((next_state, next.len()))) by {
        varint::law_signed_varint_read_back(to_port, next_state, more);
    }
}

/// What a client sent in a Handshake packet is read from it, whatever it sends in the
/// same burst.
#[verifier::spinoff_prover]
#[verifier::rlimit(60)]
pub proof fn law_handshake_read_back(
    protocol_version: i32,
    address: Seq<char>,
    port_high: u8,
    port_low: u8,
    next_state: i32,
    more: Seq<u8>,
)
    requires
        packet_body(protocol_version, address, port_high, port_low, next_state).len()
            < 0x8000_0000,
    ensures
        reading(
            wire::frame(packet_body(protocol_version, address, port_high, port_low, next_state))
                + more,
        ) == Reading::Complete(
            HandshakeFields {
                protocol_version,
                server_address: clean_address(address),
                next_state,
            },
        ),
{
    let body = packet_body(protocol_version, address, port_high, port_low, next_state);
    let bytes = wire::frame(body) + more;
    let length = varint::encode(body.len());
    let id = varint::encode(0);
    let protocol = varint::encode(protocol_version as u32 as nat);
    let field = wire::string_field(address);
    let port = seq![port_high, port_low];
    let next = varint::encode(next_state as u32 as nat);
    let to_id = length + id;
    let to_protocol = to_id + protocol;

    lemma_regroup(length, id, protocol, field, port, next, more);
    varint::law_varint_length(body.len() as u32);
    varint::law_varint_length(protocol_version as u32);
    assert(varint::varint_at(bytes, 0) == Some((body.len() as i32, length.len()))) by {
        varint::law_varint_read_back(Seq::empty(), body.len() as u32, body + more);
    }
    assert(varint::varint_at(bytes, length.len() as int) == Some((0i32, id.len()))) by {
        varint::law_varint_read_back(length, 0, protocol + field + port + next + more);
    }
    assert(varint::varint_at(bytes, to_id.len() as int) == Some((protocol_version, protocol.len())))
        by {
        varint::law_signed_varint_read_back(to_id, protocol_version, field + port + next + more);
    }
    lemma_read_address(to_protocol, protocol_version, address, port, next_state, more);
}

/// As long as a byte of its frame is missing, nothing is told of a packet, be it a
/// handshake or not.
pub proof fn law_partial_frame_waits(body: Seq<u8>, kept: int)
    requires
        body.len() < 0x8000_0000,
        0 <= kept < wire::frame(body).len(),
    ensures
        reading(wire::frame(body).take(kept)) is Incomplete,
{
    let length = varint::encode(body.len());
    let bytes = wire::frame(body).take(kept);
    if kept < length.len() {
        assert(bytes =~= Seq::empty() + length.take(kept));
        varint::law_varint_needs_every_byte(Seq::empty(), body.len(), kept);
    } else {
        assert(bytes =~= Seq::empty() + length + body.take(kept - length.len()));
        varint::law_varint_length(body.len() as u32);
        varint::law_varint_read_back(
            Seq::empty(),
            body.len() as u32,
            body.take(kept - length.len()),
        );
    }
}

/// A frame with a negative length is never complete.
pub proof fn law_negative_length_never_completes(bytes: Seq<u8>)
    requires
        varint::varint_at(bytes, 0) matches Some((length, _)) && length < 0,
    ensures
        reading(bytes) is Incomplete || reading(bytes) is Overflow,
{
}

/// A handshake whose server address has a negative length is never complete.
pub proof fn law_negative_address_length_never_completes(
    bytes: Seq<u8>,
    frame: (i32, nat),
    id: (i32, nat),
    protocol: (i32, nat),
    address: (i32, nat),
)
    requires
        varint::varint_at(bytes, 0) == Some(frame),
        varint::varint_at(bytes, frame.1 as int) == Some(id),
        id.0 == 0,
        varint::varint_at(bytes, (frame.1 + id.1) as int) == Some(protocol),
        varint::varint_at(bytes, (frame.1 + id.1 + protocol.1) as int) == Some(address),
        address.0 < 0,
    ensures
        reading(bytes) is Incomplete || reading(bytes) is Overflow,
{
}

/// The marker that Forge puts behind the host name, from a NUL on, does not matter.
pub proof fn law_forge_marker_is_ignored(host: Seq<char>, marker: Seq<char>)
    ensures
        clean_address(host + seq!['\0'] + marker) == clean_address(host),
{
    text::law_before_drops_rest(host, '\0', marker);
}

/// A port behind the host name does not matter.
pub proof fn law_port_suffix_is_ignored(host: Seq<char>, port: Seq<char>)
    ensures
        clean_address(host + seq![':'] + port) == clean_address(host),
{
    let suffix = seq![':'] + port;
    assert(host + seq![':'] + port =~= host + suffix);
    text::lemma_before_joined(host, suffix, '\0');
    if !host.contains('\0') {
        text::lemma_before_joined(seq![':'], port, '\0');
        assert(!seq![':'].contains('\0'));
        assert(host + text::before(suffix, '\0') =~= host + seq![':'] + text::before(port, '\0'));
        text::law_before_drops_rest(host, ':', text::before(port, '\0'));
    }
}

/// The case of ASCII letters in an address does not matter.
pub proof fn law_address_case_is_ignored(address: Seq<char>, other: Seq<char>)
    requires
        text::same_up_to_case(address, other),
    ensures
        clean_address(address) == clean_address(other),
{
    text::law_before_ignores_case(address, other, '\0');
    let a = text::before(address, '\0');
    let b = text::before(other, '\0');
    text::law_before_ignores_case(a, b, ':');
    text::law_lowercase_ignores_case(text::before(a, ':'), text::before(b, ':'));
}

/// The chunks of a connection, joined.
pub open spec fn joined(chunks: Seq<Seq<u8>>) -> Seq<u8>
    decreases chunks.len(),
{
    if chunks.len() == 0 {
        Seq::empty()
    } else {
        chunks[0] + joined(chunks.skip(1))
    }
}

/// How far a connection gets that has `received` bytes and whose reads give `chunks`:
/// what it has received then, and its next step.
pub open spec fn session(received: Seq<u8>, chunks: Seq<Seq<u8>>) -> (Seq<u8>, Next)
    decreases chunks.len(),
{
    match next_step(received) {
        Next::Receive => if chunks.len() == 0 {
            (received, Next::Receive)
        } else {
            let more = received + chunks[0];
            if chunks[0].len() == 0 {
                (more, Next::Fail(HandshakeError::Closed))
            } else if more.len() > MAX_HANDSHAKE_BYTES {
                (more, Next::Fail(HandshakeError::BufferFull(more.len() as usize)))
            } else {
                session(more, chunks.skip(1))
            }
        },
        step => (received, step),
    }
}

/// How many of its reads such a connection makes.
pub open spec fn reads(received: Seq<u8>, chunks: Seq<Seq<u8>>) -> nat
    decreases chunks.len(),
{
    if !(next_step(received) is Receive) || chunks.len() == 0 {
        0
    } else {
        let more = received + chunks[0];
        if chunks[0].len() == 0 || more.len() > MAX_HANDSHAKE_BYTES {
            1
        } else {
            1 + reads(more, chunks.skip(1))
        }
    }
}

/// Nothing is lost: what a connection has received is all that its reads gave, in order.
/// It stops reading only when it has finished or failed.
pub proof fn law_nothing_is_lost(received: Seq<u8>, chunks: Seq<Seq<u8>>)
    ensures
        reads(received, chunks) <= chunks.len(),
        session(received, chunks).0 == received + joined(
            chunks.take(reads(received, chunks) as int),
        ),
        session(received, chunks).1 is Receive ==> reads(received, chunks) == chunks.len(),
    decreases chunks.len(),
{
    let count = reads(received, chunks) as int;
    let used = chunks.take(count);
    if count == 0 {
        assert(received + joined(used) =~= received);
    } else {
        let more = received + chunks[0];
        let rest = chunks.skip(1);
        if count == 1 {
            assert(used.skip(1) =~= Seq::empty());
        }
        if chunks[0].len() > 0 && more.len() <= MAX_HANDSHAKE_BYTES {
            law_nothing_is_lost(more, rest);
            assert(used.skip(1) =~= rest.take(count - 1));
            assert(more + joined(used.skip(1)) =~= received + joined(used));
        } else {
            assert(joined(used.skip(1)) =~= Seq::empty());
            assert(received + joined(used) =~= more);
        }
    }
}

/// The buffer is capped: a connection that finishes, or goes on reading, holds no more
/// than the limit on handshakes, and one that comes to hold more is dropped.
pub proof fn law_buffer_is_capped(received: Seq<u8>, chunks: Seq<Seq<u8>>)
    ensures
        session(received, chunks).1 is Finish ==> session(received, chunks).0.len()
            <= MAX_HANDSHAKE_BYTES,
        session(received, chunks).1 is Receive ==> session(received, chunks).0.len()
            < MAX_HANDSHAKE_BYTES,
        session(received, chunks).0.len() > MAX_HANDSHAKE_BYTES ==> session(received, chunks).1
            == Next::Fail(
            HandshakeError::BufferFull(session(received, chunks).0.len() as usize),
        ),
    decreases chunks.len(),
{
    if next_step(received) is Receive && chunks.len() > 0 {
        let more = received + chunks[0];
        if chunks[0].len() > 0 && more.len() <= MAX_HANDSHAKE_BYTES {
            law_buffer_is_capped(more, chunks.skip(1));
        }
    }
}

/// How the bytes are cut into reads does not matter: where the first `n` bytes amount to
/// something, the connection ends with that. The reads must not take it over the limit on
/// handshakes: either there are no more bytes than that, or `n` is a read short of it.
#[verifier::spinoff_prover]
#[verifier::rlimit(60)]
pub proof fn law_chunks_do_not_matter(received: Seq<u8>, chunks: Seq<Seq<u8>>, n: int)
    requires
        forall|i: int| 0 <= i < chunks.len() ==> (#[trigger] chunks[i]).len() > 0,
        0 <= n <= (received + joined(chunks)).len(),
        received.len() <= MAX_HANDSHAKE_BYTES,
        (received + joined(chunks)).len() <= MAX_HANDSHAKE_BYTES || (n + READ_CHUNK_BYTES
            <= MAX_HANDSHAKE_BYTES + 1 && forall|i: int|
            0 <= i < chunks.len() ==> (#[trigger] chunks[i]).len() <= READ_CHUNK_BYTES),
        !(reading((received + joined(chunks)).take(n)) is Incomplete),
    ensures
        session(received, chunks).1 == next_step((received + joined(chunks)).take(n)),
    decreases chunks.len(),
{
    let all = received + joined(chunks);
    let head = all.take(n);
    assert(all =~= head + all.skip(n));
    law_reading_is_final(head, all.skip(n));
    if !(reading(received) is Incomplete) {
        law_reading_is_final(received, joined(chunks));
    } else {
        if received.len() >= n {
            assert(received =~= head + received.skip(n));
            law_reading_is_final(head, received.skip(n));
        }
        let rest = chunks.skip(1);
        let more = received + chunks[0];
        assert(more + joined(rest) =~= all);
        assert forall|i: int| 0 <= i < rest.len() implies (#[trigger] rest[i]).len() > 0 by {
            assert(rest[i] == chunks[i + 1]);
        }
        if all.len() > MAX_HANDSHAKE_BYTES {
            assert forall|i: int| 0 <= i < rest.len() implies (#[trigger] rest[i]).len()
                <= READ_CHUNK_BYTES by {
                assert(rest[i] == chunks[i + 1]);
            }
        }
        assert(more.len() <= MAX_HANDSHAKE_BYTES);
        law_chunks_do_not_matter(more, rest, n);
    }
}

/// A client that sends a Handshake packet gets through, with what it sent, however its
/// bytes are cut and whatever it sends in the same burst, as long as the reads do not take
/// it over the limit on handshakes.
#[verifier::spinoff_prover]
#[verifier::rlimit(60)]
pub proof fn law_handshake_gets_through(
    protocol_version: i32,
    address: Seq<char>,
    port_high: u8,
    port_low: u8,
    next_state: i32,
    more: Seq<u8>,
    chunks: Seq<Seq<u8>>,
)
    requires
        forall|i: int| 0 <= i < chunks.len() ==> (#[trigger] chunks[i]).len() > 0,
        joined(chunks) == wire::frame(
            packet_body(protocol_version, address, port_high, port_low, next_state),
        ) + more,
        joined(chunks).len() <= MAX_HANDSHAKE_BYTES || (wire::frame(
            packet_body(protocol_version, address, port_high, port_low, next_state),
        ).len() + READ_CHUNK_BYTES <= MAX_HANDSHAKE_BYTES + 1 && forall|i: int|
            0 <= i < chunks.len() ==> (#[trigger] chunks[i]).len() <= READ_CHUNK_BYTES),
    ensures
        session(Seq::empty(), chunks).1 == Next::Finish(
            HandshakeFields {
                protocol_version,
                server_address: clean_address(address),
                next_state,
            },
        ),
{
    let none = Seq::<u8>::empty();
    let packet = wire::frame(
        packet_body(protocol_version, address, port_high, port_low, next_state),
    );
    law_handshake_read_back(protocol_version, address, port_high, port_low, next_state, none);
    assert(packet + none =~= packet);
    assert(none + joined(chunks) =~= joined(chunks));
    assert((none + joined(chunks)).take(packet.len() as int) =~= packet);
    law_chunks_do_not_matter(none, chunks, packet.len() as int);
}

/// A connection whose bytes stay incomplete waits for more below the limit on handshakes,
/// and is given up at the limit.
pub proof fn law_incomplete_handshake_is_given_up(received: Seq<u8>, chunks: Seq<Seq<u8>>)
    requires
        forall|i: int| 0 <= i < chunks.len() ==> (#[trigger] chunks[i]).len() > 0,
        reading(received + joined(chunks)) is Incomplete,
    ensures
        (received + joined(chunks)).len() < MAX_HANDSHAKE_BYTES ==> session(received, chunks) == (
            received + joined(chunks),
            Next::Receive,
        ),
        (received + joined(chunks)).len() >= MAX_HANDSHAKE_BYTES ==> {
            let (kept, step) = session(received, chunks);
            kept.len() >= MAX_HANDSHAKE_BYTES && step == Next::Fail(
                HandshakeError::BufferFull(kept.len() as usize),
            )
        },
    decreases chunks.len(),
{
    let all = received + joined(chunks);
    if !(reading(received) is Incomplete) {
        law_reading_is_final(received, joined(chunks));
    } else if received.len() < MAX_HANDSHAKE_BYTES {
        if chunks.len() == 0 {
            assert(all =~= received);
        } else {
            let rest = chunks.skip(1);
            let more = received + chunks[0];
            assert(more + joined(rest) =~= all);
            assert forall|i: int| 0 <= i < rest.len() implies (#[trigger] rest[i]).len() > 0 by {
                assert(rest[i] == chunks[i + 1]);
            }
            if more.len() <= MAX_HANDSHAKE_BYTES {
                law_incomplete_handshake_is_given_up(more, rest);
            }
        }
    }
}

/// What a handshake, a progress and a step show is what they hold.
pub proof fn law_views(handshake: Handshake, error: HandshakeError)
    ensures
        ({
            let fields = HandshakeFields {
                protocol_version: handshake.protocol_version,
                server_address: handshake.server_address@,
                next_state: handshake.next_state,
            };
            &&& handshake@ == fields
            &&& Progress::Incomplete@ == Reading::Incomplete
            &&& Progress::Complete(handshake)@ == Reading::Complete(fields)
            &&& Progress::Rejected(error)@ == Reading::Rejected(error)
            &&& Progress::Overflow@ == Reading::Overflow
            &&& ReadStep::Finish(handshake)@ == Next::Finish(fields)
            &&& ReadStep::Receive@ == Next::Receive
            &&& ReadStep::Fail(error)@ == Next::Fail(error)
        }),
{
}

/// The host name of an address is what stands before the first NUL or colon, in lower case.
pub proof fn law_clean_address(host: Seq<char>, suffix: Seq<char>)
    requires
        !host.contains('\0'),
        !host.contains(':'),
        suffix.len() == 0 || suffix[0] == '\0' || suffix[0] == ':',
    ensures
        clean_address(host + suffix) == text::lowercase(host),
{
    text::lemma_before_joined(host, suffix, '\0');
    let rest = text::before(suffix, '\0');
    text::law_before(suffix, '\0');
    assert(rest.len() == 0 || rest[0] == ':') by {
        if rest.len() > 0 {
            assert(rest[0] == suffix[0]);
            assert(rest.contains(rest[0]));
        }
    }
    text::lemma_before_joined(host, rest, ':');
    assert(text::before(rest, ':') =~= Seq::empty());
    assert(host + Seq::<char>::empty() =~= host);
}

/// A complete handshake is in the bytes: the whole frame has come, the packet has the ID 0,
/// and the fields are the ones that the bytes give. A packet is rejected for another ID or
/// for an address that is not UTF-8 and for nothing else, and a length overflows only if it
/// is negative by no more than the bytes in front of its end.
#[verifier::spinoff_prover]
#[verifier::rlimit(60)]
pub proof fn law_reading_is_true(bytes: Seq<u8>)
    ensures
        match reading(bytes) {
            Reading::Incomplete => true,
            Reading::Complete(fields) => {
                &&& varint::varint_at(bytes, 0) matches Some((frame, u0))
                &&& frame >= 0
                &&& u0 + frame <= bytes.len()
                &&& varint::varint_at(bytes, u0 as int) matches Some((id, u1))
                &&& id == 0
                &&& varint::varint_at(bytes, (u0 + u1) as int) matches Some((protocol, u2))
                &&& fields.protocol_version == protocol
                &&& varint::varint_at(bytes, (u0 + u1 + u2) as int) matches Some((size, u3))
                &&& size >= 0
                &&& u0 + u1 + u2 + u3 + size + 2 <= bytes.len()
                &&& vstd::utf8::valid_utf8(
                    bytes.subrange(
                        (u0 + u1 + u2 + u3) as int,
                        (u0 + u1 + u2 + u3) as int + size,
                    ),
                )
                &&& fields.server_address == clean_address(
                    vstd::utf8::decode_utf8(
                        bytes.subrange(
                            (u0 + u1 + u2 + u3) as int,
                            (u0 + u1 + u2 + u3) as int + size,
                        ),
                    ),
                )
                &&& varint::varint_at(bytes, (u0 + u1 + u2 + u3) as int + size + 2) matches Some(
                    (next, _),
                )
                &&& fields.next_state == next
            },
            Reading::Rejected(HandshakeError::UnexpectedPacket(id)) => {
                &&& id != 0
                &&& varint::varint_at(bytes, 0) matches Some((frame, u0))
                &&& frame >= 0
                &&& u0 + frame <= bytes.len()
                &&& varint::varint_at(bytes, u0 as int) matches Some((found, _))
                &&& found == id
            },
            Reading::Rejected(HandshakeError::AddressNotUtf8) => {
                &&& varint::varint_at(bytes, 0) matches Some((frame, u0))
                &&& frame >= 0
                &&& u0 + frame <= bytes.len()
                &&& varint::varint_at(bytes, u0 as int) matches Some((id, u1))
                &&& id == 0
                &&& varint::varint_at(bytes, (u0 + u1) as int) matches Some((_, u2))
                &&& varint::varint_at(bytes, (u0 + u1 + u2) as int) matches Some((size, u3))
                &&& size >= 0
                &&& u0 + u1 + u2 + u3 + size <= bytes.len()
                &&& !vstd::utf8::valid_utf8(
                    bytes.subrange(
                        (u0 + u1 + u2 + u3) as int,
                        (u0 + u1 + u2 + u3) as int + size,
                    ),
                )
            },
            Reading::Rejected(_) => false,
            Reading::Overflow => {
                &&& varint::varint_at(bytes, 0) matches Some((frame, u0))
                &&& {
                    ||| frame < 0 && u0 + frame >= 0
                    ||| {
                        &&& frame >= 0
                        &&& u0 + frame <= bytes.len()
                        &&& varint::varint_at(bytes, u0 as int) matches Some((id, u1))
                        &&& id == 0
                        &&& varint::varint_at(bytes, (u0 + u1) as int) matches Some((_, u2))
                        &&& varint::varint_at(bytes, (u0 + u1 + u2) as int) matches Some(
                            (size, u3),
                        )
                        &&& size < 0
                        &&& u0 + u1 + u2 + u3 + size >= 0
                    }
                }
            },
        },
{
    lemma_varint_ends(bytes, 0);
    if let Some((_, u0)) = varint::varint_at(bytes, 0) {
        lemma_varint_ends(bytes, u0 as int);
        if let Some((_, u1)) = varint::varint_at(bytes, u0 as int) {
            lemma_varint_ends(bytes, (u0 + u1) as int);
            if let Some((_, u2)) = varint::varint_at(bytes, (u0 + u1) as int) {
                lemma_varint_ends(bytes, (u0 + u1 + u2) as int);
            }
        }
    }
}

proof fn lemma_varint_ends(bytes: Seq<u8>, offset: int)
    ensures
        varint::varint_at(bytes, offset) matches Some((_, used)) ==> 1 <= used <= 5,
{
    varint::law_varint_shape(bytes, offset);
}

/// Bytes that are made like a Handshake packet are one, however its numbers are written and
/// whatever its frame says of bytes that are there.
#[verifier::spinoff_prover]
#[verifier::rlimit(60)]
pub proof fn law_packet_is_complete(
    frame: (Seq<u8>, i32),
    id: Seq<u8>,
    protocol: (Seq<u8>, i32),
    size: Seq<u8>,
    address: Seq<u8>,
    port: Seq<u8>,
    next: (Seq<u8>, i32),
    more: Seq<u8>,
)
    requires
        varint::varint_at(frame.0, 0) == Some((frame.1, frame.0.len())),
        0 <= frame.1 <= (id + protocol.0 + size + address + port + next.0 + more).len(),
        varint::varint_at(id, 0) == Some((0i32, id.len())),
        varint::varint_at(protocol.0, 0) == Some((protocol.1, protocol.0.len())),
        address.len() < 0x8000_0000,
        varint::varint_at(size, 0) == Some((address.len() as i32, size.len())),
        vstd::utf8::valid_utf8(address),
        port.len() == 2,
        varint::varint_at(next.0, 0) == Some((next.1, next.0.len())),
    ensures
        reading(frame.0 + (id + protocol.0 + size + address + port + next.0 + more))
            == Reading::Complete(
            HandshakeFields {
                protocol_version: protocol.1,
                server_address: clean_address(vstd::utf8::decode_utf8(address)),
                next_state: next.1,
            },
        ),
{
    let tail = port + next.0 + more;
    let bytes = frame.0 + (id + protocol.0 + size + address + port + next.0 + more);
    let to_size = frame.0 + id + protocol.0 + size;
    let to_port = to_size + address;
    assert(bytes =~= frame.0 + id + protocol.0 + size + (address + tail));
    lemma_front(frame, id, protocol, size, address.len() as i32, address + tail);
    assert(bytes.subrange(to_size.len() as int, to_port.len() as int) =~= address);
    assert(bytes =~= (to_port + port) + next.0 + more);
    varint::law_varint_stands_anywhere(to_port + port, next.0, more, next.1);
}

/// The numbers in front of the server address, in place.
#[verifier::spinoff_prover]
#[verifier::rlimit(60)]
proof fn lemma_front(
    frame: (Seq<u8>, i32),
    id: Seq<u8>,
    protocol: (Seq<u8>, i32),
    size: Seq<u8>,
    length: i32,
    rest: Seq<u8>,
)
    requires
        varint::varint_at(frame.0, 0) == Some((frame.1, frame.0.len())),
        0 <= frame.1 <= (id + protocol.0 + size + rest).len(),
        varint::varint_at(id, 0) == Some((0i32, id.len())),
        varint::varint_at(protocol.0, 0) == Some((protocol.1, protocol.0.len())),
        varint::varint_at(size, 0) == Some((length, size.len())),
    ensures
        ({
            let front = frame.0 + id + protocol.0;
            &&& (front + size).len() <= 20
            &&& varint::varint_at(front + size + rest, front.len() as int) == Some(
                (length, size.len()),
            )
            &&& reading(front + size + rest) == reading_from_address(
                front + size + rest,
                front.len() as int,
                protocol.1,
            )
        }),
{
    let front = frame.0 + id + protocol.0;
    let bytes = front + size + rest;
    lemma_varint_ends(frame.0, 0);
    lemma_varint_ends(id, 0);
    lemma_varint_ends(protocol.0, 0);
    lemma_varint_ends(size, 0);
    assert(bytes =~= Seq::empty() + frame.0 + (id + protocol.0 + size + rest));
    varint::law_varint_stands_anywhere(
        Seq::empty(),
        frame.0,
        id + protocol.0 + size + rest,
        frame.1,
    );
    assert(bytes =~= frame.0 + id + (protocol.0 + size + rest));
    varint::law_varint_stands_anywhere(frame.0, id, protocol.0 + size + rest, 0);
    assert(bytes =~= (frame.0 + id) + protocol.0 + (size + rest));
    varint::law_varint_stands_anywhere(frame.0 + id, protocol.0, size + rest, protocol.1);
    varint::law_varint_stands_anywhere(front, size, rest, length);
}

/// A whole frame whose packet ID is not 0 is rejected with that ID, whatever else it holds
/// and whatever follows.
pub proof fn law_other_packets_are_rejected(
    frame: (Seq<u8>, i32),
    id: (Seq<u8>, i32),
    more: Seq<u8>,
)
    requires
        varint::varint_at(frame.0, 0) == Some((frame.1, frame.0.len())),
        0 <= frame.1 <= (id.0 + more).len(),
        varint::varint_at(id.0, 0) == Some((id.1, id.0.len())),
        id.1 != 0,
    ensures
        reading(frame.0 + id.0 + more) == Reading::Rejected(
            HandshakeError::UnexpectedPacket(id.1),
        ),
{
    let bytes = frame.0 + id.0 + more;
    lemma_varint_ends(frame.0, 0);
    assert(bytes =~= Seq::empty() + frame.0 + (id.0 + more));
    varint::law_varint_stands_anywhere(Seq::empty(), frame.0, id.0 + more, frame.1);
    varint::law_varint_stands_anywhere(frame.0, id.0, more, id.1);
}

/// A packet as it is sent, with an ID other than 0, is rejected with that ID.
pub proof fn law_sent_packet_is_rejected(id: i32, rest: Seq<u8>, more: Seq<u8>)
    requires
        id != 0,
        (varint::encode(id as u32 as nat) + rest).len() < 0x8000_0000,
    ensures
        reading(wire::frame(varint::encode(id as u32 as nat) + rest) + more) == Reading::Rejected(
            HandshakeError::UnexpectedPacket(id),
        ),
{
    let none = Seq::<u8>::empty();
    let piece = varint::encode(id as u32 as nat);
    let body = piece + rest;
    let length = varint::encode(body.len());
    varint::law_varint_read_back(none, body.len() as u32, none);
    assert(none + length + none =~= length);
    varint::law_signed_varint_read_back(none, id, none);
    assert(none + piece + none =~= piece);
    law_other_packets_are_rejected((length, body.len() as i32), (piece, id), rest + more);
    assert(wire::frame(body) + more =~= length + piece + (rest + more));
}

/// A handshake whose address has come and is not UTF-8 is rejected for that.
pub proof fn law_bad_address_is_rejected(
    frame: (Seq<u8>, i32),
    id: Seq<u8>,
    protocol: (Seq<u8>, i32),
    size: Seq<u8>,
    address: Seq<u8>,
    more: Seq<u8>,
)
    requires
        varint::varint_at(frame.0, 0) == Some((frame.1, frame.0.len())),
        0 <= frame.1 <= (id + protocol.0 + size + (address + more)).len(),
        varint::varint_at(id, 0) == Some((0i32, id.len())),
        varint::varint_at(protocol.0, 0) == Some((protocol.1, protocol.0.len())),
        address.len() < 0x8000_0000,
        varint::varint_at(size, 0) == Some((address.len() as i32, size.len())),
        !vstd::utf8::valid_utf8(address),
    ensures
        reading(frame.0 + id + protocol.0 + size + (address + more)) == Reading::Rejected(
            HandshakeError::AddressNotUtf8,
        ),
{
    let to_size = frame.0 + id + protocol.0 + size;
    let bytes = to_size + (address + more);
    lemma_front(frame, id, protocol, size, address.len() as i32, address + more);
    assert(bytes.subrange(to_size.len() as int, to_size.len() + address.len() as int) =~= address);
}

/// A negative length that reaches back no further than to the first byte overflows, be it
/// that of the frame or that of the address.
#[verifier::spinoff_prover]
#[verifier::rlimit(60)]
pub proof fn law_small_negative_length_overflows(
    frame: (Seq<u8>, i32),
    id: Seq<u8>,
    protocol: (Seq<u8>, i32),
    size: (Seq<u8>, i32),
    rest: Seq<u8>,
)
    requires
        varint::varint_at(frame.0, 0) == Some((frame.1, frame.0.len())),
    ensures
        frame.1 < 0 && frame.0.len() + frame.1 >= 0 ==> reading(frame.0 + rest) is Overflow,
        frame.1 < 0 && frame.0.len() + frame.1 < 0 ==> reading(frame.0 + rest) is Incomplete,
        ({
            &&& 0 <= frame.1 <= (id + protocol.0 + size.0 + rest).len()
            &&& varint::varint_at(id, 0) == Some((0i32, id.len()))
            &&& varint::varint_at(protocol.0, 0) == Some((protocol.1, protocol.0.len()))
            &&& varint::varint_at(size.0, 0) == Some((size.1, size.0.len()))
            &&& size.1 < 0
        }) ==> {
            let front = frame.0 + id + protocol.0 + size.0;
            if front.len() + size.1 >= 0 {
                reading(front + rest) is Overflow
            } else {
                reading(front + rest) is Incomplete
            }
        },
{
    lemma_varint_ends(frame.0, 0);
    assert(Seq::empty() + frame.0 + rest =~= frame.0 + rest);
    varint::law_varint_stands_anywhere(Seq::empty(), frame.0, rest, frame.1);
    if 0 <= frame.1 <= (id + protocol.0 + size.0 + rest).len() && varint::varint_at(id, 0) == Some(
        (0i32, id.len()),
    ) && varint::varint_at(protocol.0, 0) == Some((protocol.1, protocol.0.len()))
        && varint::varint_at(size.0, 0) == Some((size.1, size.0.len())) && size.1 < 0 {
        lemma_front(frame, id, protocol, size.0, size.1, rest);
    }
}

/// A connection finishes only with a handshake that it has received, within 4096 bytes, and
/// always with that; what rejects the packet fails the connection, and only bytes that are
/// incomplete, and short of 4096, ask for more: 512 of them at the most.
pub proof fn law_steps(bytes: Seq<u8>)
    ensures
        bytes.len() > 4096 ==> next_step(bytes) == Next::Fail(
            HandshakeError::BufferFull(bytes.len() as usize),
        ),
        bytes.len() <= 4096 ==> match reading(bytes) {
            Reading::Complete(fields) => next_step(bytes) == Next::Finish(fields),
            Reading::Rejected(error) => next_step(bytes) == Next::Fail(error),
            Reading::Overflow => next_step(bytes) == Next::Fail(HandshakeError::LengthOverflow),
            Reading::Incomplete => if bytes.len() == 4096 {
                next_step(bytes) == Next::Fail(HandshakeError::BufferFull(4096))
            } else {
                next_step(bytes) is Receive
            },
        },
        next_step(bytes) matches Next::Finish(fields) ==> bytes.len() <= 4096 && reading(bytes)
            == Reading::Complete(fields),
        next_step(bytes) is Receive ==> bytes.len() + READ_CHUNK_BYTES <= 4607,
{
}

/// A first packet that is no Handshake ends the connection with its ID, however its bytes
/// are cut and whatever follows, as long as they stay within the limit.
pub proof fn law_other_packets_end_the_connection(
    id: i32,
    rest: Seq<u8>,
    more: Seq<u8>,
    chunks: Seq<Seq<u8>>,
)
    requires
        id != 0,
        forall|i: int| 0 <= i < chunks.len() ==> (#[trigger] chunks[i]).len() > 0,
        joined(chunks) == wire::frame(varint::encode(id as u32 as nat) + rest) + more,
        joined(chunks).len() <= 4096,
    ensures
        session(Seq::empty(), chunks).1 == Next::Fail(HandshakeError::UnexpectedPacket(id)),
{
    let none = Seq::<u8>::empty();
    let all = joined(chunks);
    law_sent_packet_is_rejected(id, rest, more);
    assert(none + all =~= all);
    assert(all.take(all.len() as int) =~= all);
    law_chunks_do_not_matter(none, chunks, all.len() as int);
}

/// Bytes that are received go behind those that are there. Nothing received means that the
/// client is gone, and more than 4096 bytes in all are too many.
pub proof fn law_received(buf: &mut Vec<u8>, chunk: &[u8], result: Result<(), HandshakeError>)
    requires
        call_ensures(receive, (buf, chunk), result),
    ensures
        final(buf)@ == old(buf)@ + chunk@,
        result is Ok <==> chunk@.len() > 0 && old(buf)@.len() + chunk@.len() <= 4096,
        result matches Err(error) ==> error == if chunk@.len() == 0 {
            HandshakeError::Closed
        } else {
            HandshakeError::BufferFull((old(buf)@.len() + chunk@.len()) as usize)
        },
{
}

/// A Handshake packet is parsed into the fields that the client put into it.
pub proof fn law_packet_is_parsed(
    protocol_version: i32,
    address: Seq<char>,
    port_high: u8,
    port_low: u8,
    next_state: i32,
    more: Seq<u8>,
    buf: &[u8],
    result: Progress,
)
    requires
        packet_body(protocol_version, address, port_high, port_low, next_state).len()
            < 0x8000_0000,
        buf@ == wire::frame(
            packet_body(protocol_version, address, port_high, port_low, next_state),
        ) + more,
        call_ensures(parse_handshake, (buf,), result),
    ensures
        result matches Progress::Complete(handshake) && {
            &&& handshake.protocol_version == protocol_version
            &&& handshake.server_address@ == clean_address(address)
            &&& handshake.next_state == next_state
        },
{
    law_handshake_read_back(protocol_version, address, port_high, port_low, next_state, more);
    lemma_parsed(buf, result);
}

proof fn lemma_parsed(buf: &[u8], result: Progress)
    requires
        call_ensures(parse_handshake, (buf,), result),
    ensures
        result@ == reading(buf@),
{
}

/// Any other packet is parsed into an error with its ID.
pub proof fn law_other_packet_is_refused(
    id: i32,
    rest: Seq<u8>,
    more: Seq<u8>,
    buf: &[u8],
    result: Progress,
)
    requires
        id != 0,
        (varint::encode(id as u32 as nat) + rest).len() < 0x8000_0000,
        buf@ == wire::frame(varint::encode(id as u32 as nat) + rest) + more,
        call_ensures(parse_handshake, (buf,), result),
    ensures
        result == Progress::Rejected(HandshakeError::UnexpectedPacket(id)),
{
    law_sent_packet_is_rejected(id, rest, more);
    lemma_parsed(buf, result);
}

/// A packet is parsed into a handshake only if its frame has come whole and its ID is 0.
pub proof fn law_parsed_packet_is_a_handshake(buf: &[u8], result: Progress)
    requires
        call_ensures(parse_handshake, (buf,), result),
        result is Complete,
    ensures
        varint::varint_at(buf@, 0) matches Some((frame, used)) && 0 <= frame && used + frame
            <= buf@.len() && (varint::varint_at(buf@, used as int) matches Some((id, _)) && id
            == 0),
{
    lemma_parsed(buf, result);
    law_reading_is_true(buf@);
}

/// What was parsed stays when more bytes come.
pub proof fn law_parsed_for_good(buf: &[u8], result: Progress, longer: &[u8], later: Progress)
    requires
        call_ensures(parse_handshake, (buf,), result),
        call_ensures(parse_handshake, (longer,), later),
        buf@.is_prefix_of(longer@),
        result !is Incomplete,
    ensures
        later@ == result@,
{
    lemma_parsed(buf, result);
    lemma_parsed(longer, later);
    assert(longer@ =~= buf@ + longer@.skip(buf@.len() as int));
    law_reading_is_final(buf@, longer@.skip(buf@.len() as int));
}

/// The ways of asking about the same bytes agree: a connection finishes with the handshake
/// that is parsed, fails with the error that is, and reads on, up to 4096 bytes, where
/// neither is there.
pub proof fn law_answers_agree(
    buf: &[u8],
    parsed: Progress,
    tried: Result<Option<Handshake>, HandshakeError>,
    step: ReadStep,
)
    requires
        call_ensures(parse_handshake, (buf,), parsed),
        call_ensures(try_parse_handshake, (buf,), tried),
        call_ensures(read_handshake, (buf,), step),
    ensures
        match parsed {
            Progress::Complete(handshake) => {
                &&& tried matches Ok(Some(same)) && same@ == handshake@
                &&& buf@.len() <= 4096 ==> (step matches ReadStep::Finish(same) && same@
                    == handshake@)
            },
            Progress::Rejected(error) => {
                &&& tried matches Err(same) && same == error
                &&& buf@.len() <= 4096 ==> (step matches ReadStep::Fail(same) && same == error)
            },
            Progress::Incomplete => {
                &&& tried matches Ok(None)
                &&& buf@.len() < 4096 ==> step is Receive
                &&& buf@.len() == 4096 ==> (step matches ReadStep::Fail(error) && error
                    == HandshakeError::BufferFull(4096))
            },
            Progress::Overflow => {
                &&& tried matches Ok(None)
                &&& buf@.len() <= 4096 ==> (step matches ReadStep::Fail(error) && error
                    == HandshakeError::LengthOverflow)
            },
        },
        buf@.len() > 4096 ==> (step matches ReadStep::Fail(error) && error
            == HandshakeError::BufferFull(buf@.len() as usize)),
{
    lemma_parsed(buf, parsed);
    law_steps(buf@);
}

} // verus!
