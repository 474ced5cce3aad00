//! The packets that send a client on to its backend.

use crate::varint;
use crate::wire;
use vstd::prelude::*;

verus! {

/// The ID of the Login Success packet.
pub const LOGIN_SUCCESS_ID: u32 = 0x02;

/// The ID of the Transfer packet.
pub const TRANSFER_ID: u32 = 0x0B;

/// A Login Success packet: its ID, a UUID of zeros, an empty name and no properties.
pub open spec fn login_success() -> Seq<u8> {
    wire::frame(
        varint::encode(LOGIN_SUCCESS_ID as nat) + Seq::new(16, |i: int| 0u8) + wire::string_field(
            Seq::empty(),
        ) + varint::encode(0),
    )
}

/// A Transfer packet: its ID, the host and the port.
pub open spec fn transfer(host: Seq<char>, port: u16) -> Seq<u8> {
    wire::frame(
        varint::encode(TRANSFER_ID as nat) + wire::string_field(host) + varint::encode(port as nat),
    )
}

/// Builds the pair of packets that makes a client leave: Login Success, then
/// Transfer to `host` and `port`.
pub fn build_transfer_packets(host: &str, port: u16) -> (out: Vec<u8>)
    ensures
        out@ == login_success() + transfer(host@, port),
{
    let mut login_body: Vec<u8> = varint::write_varint(LOGIN_SUCCESS_ID);
    let ghost login_id = login_body@;
    login_body.extend_from_slice(&[0u8; 16]);
    assert(login_body@ =~= login_id + Seq::new(16, |i: int| 0u8));
    let mut name: Vec<u8> = wire::write_string("");
    assert(""@ =~= Seq::<char>::empty()) by {
        reveal_strlit("");
    }
    login_body.append(&mut name);
    let mut properties: Vec<u8> = varint::write_varint(0);
    login_body.append(&mut properties);

    let mut transfer_body: Vec<u8> = varint::write_varint(TRANSFER_ID);
    let mut host_field: Vec<u8> = wire::write_string(host);
    transfer_body.append(&mut host_field);
    let mut port_field: Vec<u8> = varint::write_varint(port as u32);
    transfer_body.append(&mut port_field);

    let mut out: Vec<u8> = wire::write_frame(login_body);
    let mut transfer_frame: Vec<u8> = wire::write_frame(transfer_body);
    out.append(&mut transfer_frame);
    out
}

/// A client reads back what was sent: first a Login Success packet, whose frame ends
/// where the second one starts, then a Transfer packet with the host and the port,
/// whose frame ends with the last byte.
#[verifier::spinoff_prover]
#[verifier::rlimit(60)]
pub proof fn law_transfer_read_back(host: Seq<char>, port: u16)
    requires
        transfer(host, port).len() < 0x8000_0000,
    ensures
        ({
            let bytes = login_success() + transfer(host, port);
            let utf8 = vstd::utf8::encode_utf8(host);
            &&& varint::varint_at(bytes, 0) == Some((19i32, 1nat))
            &&& varint::varint_at(bytes, 1) == Some((LOGIN_SUCCESS_ID as i32, 1nat))
            &&& forall|i: int| 2 <= i < 18 ==> bytes[i] == 0
            &&& varint::varint_at(bytes, 18) == Some((0i32, 1nat))
            &&& varint::varint_at(bytes, 19) == Some((0i32, 1nat))
            &&& varint::varint_at(bytes, 20) matches Some((length, used)) && {
                let start = 20int + used;
                &&& start + length == bytes.len()
                &&& varint::varint_at(bytes, start) == Some((TRANSFER_ID as i32, 1nat))
                &&& varint::varint_at(bytes, start + 1) matches Some((size, size_used)) && {
                    let name = start + 1 + size_used;
                    &&& size == utf8.len()
                    &&& vstd::utf8::valid_utf8(bytes.subrange(name, name + size))
                    &&& vstd::utf8::decode_utf8(bytes.subrange(name, name + size)) == host
                    &&& varint::varint_at(bytes, name + size) matches Some((number, number_used))
                        && number == port && name + size + number_used == bytes.len()
                }
            }
        }),
{
    let bytes = login_success() + transfer(host, port);
    let uuid = Seq::new(16, |i: int| 0u8);
    let second = transfer(host, port);
    let field = wire::string_field(host);
    let number = varint::encode(port as nat);
    let id = varint::encode(TRANSFER_ID as nat);
    let body = id + field + number;
    let length = varint::encode(body.len());
    let none = Seq::<u8>::empty();

    assert(vstd::utf8::encode_utf8(Seq::empty()) =~= none);
    assert(wire::string_field(Seq::empty()) =~= varint::encode(0));
    let first = varint::encode(19) + varint::encode(2) + uuid + varint::encode(0)
        + varint::encode(0);
    assert(login_success() =~= first);

    assert(bytes =~= none + varint::encode(19) + bytes.skip(1));
    varint::law_varint_read_back(none, 19, bytes.skip(1));
    assert(bytes =~= bytes.take(1) + varint::encode(2) + bytes.skip(2));
    varint::law_varint_read_back(bytes.take(1), 2, bytes.skip(2));
    assert(bytes =~= bytes.take(18) + varint::encode(0) + bytes.skip(19));
    varint::law_varint_read_back(bytes.take(18), 0, bytes.skip(19));
    assert(bytes =~= bytes.take(19) + varint::encode(0) + bytes.skip(20));
    varint::law_varint_read_back(bytes.take(19), 0, bytes.skip(20));

    assert(bytes =~= first + length + body);
    varint::law_varint_read_back(first, body.len() as u32, body);
    let to_id = first + length;
    assert(bytes =~= to_id + id + (field + number));
    varint::law_varint_read_back(to_id, TRANSFER_ID, field + number);
    let to_host = to_id + id;
    assert(bytes =~= to_host + field + number);
    wire::law_string_read_back(to_host, host, number);
    let to_port = to_host + field;
    assert(bytes =~= to_port + number + none);
    varint::law_varint_read_back(to_port, port as u32, none);
}

/// A Login Success packet is 20 bytes: the length of the 19 that follow, the ID 2, and zeros.
pub proof fn law_login_success_bytes()
    ensures
        login_success().len() == 20,
        login_success()[0] == 19,
        login_success()[1] == 2,
        forall|i: int| 2 <= i < 20 ==> #[trigger] login_success()[i] == 0,
{
    assert(vstd::utf8::encode_utf8(Seq::empty()) =~= Seq::<u8>::empty());
    assert(wire::string_field(Seq::empty()) =~= seq![0u8]);
    let body = varint::encode(LOGIN_SUCCESS_ID as nat) + Seq::new(16, |i: int| 0u8)
        + wire::string_field(Seq::empty()) + varint::encode(0);
    assert(body.len() == 19);
    assert(login_success() =~= seq![19u8] + body);
}

/// A Transfer packet is the length of what follows, the ID 11, the host with its length in
/// bytes in front, and the port, each number in its shortest form and each length cut to
/// 32 bits.
pub proof fn law_transfer_bytes(host: Seq<char>, port: u16)
    ensures
        ({
            let utf8 = vstd::utf8::encode_utf8(host);
            let size = varint::encode(utf8.len() % 0x1_0000_0000);
            let number = varint::encode(port as nat);
            let rest = 1 + size.len() + utf8.len() + number.len();
            transfer(host, port) == varint::encode(rest % 0x1_0000_0000) + seq![11u8] + size + utf8
                + number
        }),
{
    let utf8 = vstd::utf8::encode_utf8(host);
    let size = varint::encode(utf8.len() % 0x1_0000_0000);
    let number = varint::encode(port as nat);
    let rest = 1 + size.len() + utf8.len() + number.len();
    let body = varint::encode(TRANSFER_ID as nat) + wire::string_field(host) + number;
    assert(varint::encode(11) =~= seq![11u8]);
    assert(body.len() == rest);
    assert(transfer(host, port) =~= varint::encode(rest % 0x1_0000_0000) + seq![11u8] + size + utf8
        + number);
}

/// The packets that are built are a Login Success packet of zeros and a Transfer packet with
/// this host and this port.
pub proof fn law_built_packets(host: &str, port: u16, out: Vec<u8>)
    requires
        call_ensures(build_transfer_packets, (host, port), out),
    ensures
        ({
            let utf8 = vstd::utf8::encode_utf8(host@);
            let size = varint::encode(utf8.len() % 0x1_0000_0000);
            let number = varint::encode(port as nat);
            let rest = 1 + size.len() + utf8.len() + number.len();
            out@ == seq![19u8, 2u8] + Seq::new(18, |i: int| 0u8) + (varint::encode(
                rest % 0x1_0000_0000,
            ) + seq![11u8] + size + utf8 + number)
        }),
{
    law_login_success_bytes();
    law_transfer_bytes(host@, port);
    assert(login_success() =~= seq![19u8, 2u8] + Seq::new(18, |i: int| 0u8));
}

} // verus!
