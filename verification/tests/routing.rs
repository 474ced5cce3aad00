use mc_router::config::{load_config, RouteMap};
use mc_router::handshake::{try_parse_handshake, Handshake, HandshakeError};
use mc_router::routing::{is_failure_reported, is_reported, route_connection, select_route, Decision};
use mc_router::transfer::build_transfer_packets;
use mc_router::wire::{write_frame, write_string};

fn routes() -> RouteMap {
    load_config(r#"{"Lobby.Example.com": "10.0.0.1:25570", "Main": "main.example.net"}"#).unwrap()
}

fn handshake(protocol_version: i32, address: &str, next_state: i32) -> Handshake {
    Handshake { protocol_version, server_address: address.to_string(), next_state }
}

fn host_of(default_key: Option<&str>, address: &str) -> Option<String> {
    select_route(&routes(), &default_key.map(|key| key.to_string()), address)
        .map(|route| route.host)
}

#[test]
fn modern_login_is_transferred() {
    let hs = handshake(766, "lobby.example.com", 2);
    match route_connection(&routes(), &None, &hs, vec![1, 2, 3]) {
        Decision::Transfer { route, packets } => {
            assert_eq!((route.host.as_str(), route.port), ("10.0.0.1", 25570));
            assert_eq!(packets, build_transfer_packets("10.0.0.1", 25570));
        }
        decision => panic!("{decision:?}"),
    }
}

#[test]
fn older_login_is_piped() {
    let hs = handshake(765, "main", 2);
    match route_connection(&routes(), &None, &hs, vec![1, 2, 3]) {
        Decision::Pipe { route, replay } => {
            assert_eq!((route.host.as_str(), route.port), ("main.example.net", 25565));
            assert_eq!(replay, vec![1, 2, 3]);
        }
        decision => panic!("{decision:?}"),
    }
}

#[test]
fn status_ping_is_piped() {
    for next_state in [1, 3, 0, -2] {
        let hs = handshake(770, "main", next_state);
        let decision = route_connection(&routes(), &None, &hs, vec![9]);
        assert!(matches!(decision, Decision::Pipe { .. }));
    }
}

#[test]
fn unknown_host_is_dropped() {
    let hs = handshake(770, "elsewhere", 2);
    assert!(matches!(route_connection(&routes(), &None, &hs, vec![]), Decision::Drop));
    let missing = Some("nowhere".to_string());
    assert!(matches!(route_connection(&routes(), &missing, &hs, vec![]), Decision::Drop));
}

#[test]
fn fallback_serves_unknown_hosts() {
    assert_eq!(host_of(Some("main"), "elsewhere").as_deref(), Some("main.example.net"));
    assert_eq!(host_of(Some("main"), "").as_deref(), Some("main.example.net"));
    assert_eq!(host_of(None, "elsewhere"), None);
}

#[test]
fn fallback_key_matches_without_regard_to_case() {
    assert_eq!(host_of(Some("Main"), "elsewhere").as_deref(), Some("main.example.net"));
    assert_eq!(host_of(Some("LOBBY.example.COM"), "x").as_deref(), Some("10.0.0.1"));
}

#[test]
fn address_form_does_not_matter() {
    for address in ["Main", "MAIN", "main:25565", "mAIN\0FML2\0"] {
        let mut body = vec![0x00, 0x2f];
        body.extend(write_string(address));
        body.extend_from_slice(&[0x63, 0xdd, 0x02]);
        let bytes = write_frame(body);
        let hs = try_parse_handshake(&bytes).unwrap().unwrap();
        match route_connection(&routes(), &None, &hs, bytes.clone()) {
            Decision::Pipe { route, replay } => {
                assert_eq!((route.host.as_str(), route.port), ("main.example.net", 25565));
                assert_eq!(replay, bytes);
            }
            decision => panic!("{decision:?}"),
        }
    }
}

#[test]
fn own_route_comes_before_the_fallback() {
    assert_eq!(host_of(Some("main"), "lobby.example.com").as_deref(), Some("10.0.0.1"));
}

#[test]
fn routine_disconnects_are_not_reported() {
    assert!(!is_reported("Connection reset by peer (os error 104)"));
    assert!(!is_reported("connection closed before handshake completed"));
    assert!(!is_reported("unexpected EOF"));
    assert!(is_reported("unexpected eof"));
    assert!(is_reported("handshake timed out"));
    assert!(is_reported("connecting to main:1"));
    assert!(is_reported(""));
    assert!(is_reported("rese"));
}

#[test]
fn early_close_is_not_reported() {
    assert!(!is_failure_reported(HandshakeError::Closed));
    assert!(is_failure_reported(HandshakeError::UnexpectedPacket(5)));
    assert!(is_failure_reported(HandshakeError::AddressNotUtf8));
    assert!(is_failure_reported(HandshakeError::BufferFull(4097)));
    assert!(is_failure_reported(HandshakeError::LengthOverflow));
}
