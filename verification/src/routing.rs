//! What becomes of a connection whose handshake is complete.

use crate::config;
use crate::config::{Route, RouteMap};
use crate::handshake;
use crate::handshake::{Handshake, HandshakeError};
use crate::text;
use crate::transfer;
use crate::varint;
use crate::wire;
use vstd::prelude::*;

verus! {

/// The first protocol version (1.20.5) whose clients understand the Transfer packet.
pub const TRANSFER_MIN_PROTOCOL: i32 = 766;

/// The next state of a client that logs in.
pub const LOGIN_STATE: i32 = 2;

/// What becomes of a connection.
pub enum Plan {
    /// There is no route: the connection is dropped.
    Drop,
    /// The client gets these packets and connects to the target by itself.
    Transfer(config::Target, Seq<u8>),
    /// The connection is piped to the target, which first gets these bytes.
    Pipe(config::Target, Seq<u8>),
}

/// The text of an optional string.
pub open spec fn text_of(text: Option<String>) -> Option<Seq<char>> {
    match text {
        Some(text) => Some(text@),
        None => None,
    }
}

/// The target for a client that asked for `address`: its own route or else that of the
/// fallback key, which like every key matches without regard to case.
pub open spec fn selected(
    routes: Map<Seq<char>, config::Target>,
    fallback: Option<Seq<char>>,
    address: Seq<char>,
) -> Option<config::Target> {
    if routes.contains_key(address) {
        Some(routes[address])
    } else {
        match fallback {
            Some(key) => if routes.contains_key(key) {
                Some(routes[key])
            } else if routes.contains_key(text::lowercase(key)) {
                Some(routes[text::lowercase(key)])
            } else {
                None
            },
            None => None,
        }
    }
}

/// Whether the client is sent on rather than piped: it logs in, and it understands
/// the Transfer packet.
pub open spec fn is_transferred(fields: handshake::HandshakeFields) -> bool {
    fields.next_state == LOGIN_STATE && fields.protocol_version >= TRANSFER_MIN_PROTOCOL
}

/// What becomes of a client with this handshake, of which `received` was read so far.
pub open spec fn plan(
    routes: Map<Seq<char>, config::Target>,
    fallback: Option<Seq<char>>,
    fields: handshake::HandshakeFields,
    received: Seq<u8>,
) -> Plan {
    match selected(routes, fallback, fields.server_address) {
        None => Plan::Drop,
        Some(target) => if is_transferred(fields) {
            Plan::Transfer(
                target,
                transfer::login_success() + transfer::transfer(target.host, target.port),
            )
        } else {
            Plan::Pipe(target, received)
        },
    }
}

/// What becomes of a connection, as [`route_connection`] tells it.
#[derive(Debug)]
pub enum Decision {
    /// Drop the connection.
    Drop,
    /// Send the packets and close: the client connects to the route by itself.
    Transfer { route: Route, packets: Vec<u8> },
    /// Connect to the route, send it the replay, then copy both ways.
    Pipe { route: Route, replay: Vec<u8> },
}

impl View for Decision {
    type V = Plan;

    open spec fn view(&self) -> Plan {
        match self {
            Decision::Drop => Plan::Drop,
            Decision::Transfer { route, packets } => Plan::Transfer(route@, packets@),
            Decision::Pipe { route, replay } => Plan::Pipe(route@, replay@),
        }
    }
}

/// The route for a client that asked for `address`, if there is one.
pub fn select_route(
    routes: &RouteMap,
    default_key: &Option<String>,
    address: &str,
) -> (result: Option<Route>)
    ensures
        match result {
            Some(route) => selected(routes@, text_of(*default_key), address@) == Some(route@),
            None => selected(routes@, text_of(*default_key), address@) is None,
        },
{
    if let Some(route) = routes.get(address) {
        return Some(route.clone());
    }
    match default_key {
        Some(key) => {
            if let Some(route) = routes.get(key.as_str()) {
                return Some(route.clone());
            }
            match routes.get(key.as_str().to_lowercase().as_str()) {
                Some(route) => Some(route.clone()),
                None => None,
            }
        },
        None => None,
    }
}

/// Decides what becomes of a connection whose handshake is complete. `received` is
/// everything that was read from it so far.
pub fn route_connection(
    routes: &RouteMap,
    default_key: &Option<String>,
    hs: &Handshake,
    received: Vec<u8>,
) -> (decision: Decision)
    ensures
        decision@ == plan(routes@, text_of(*default_key), hs@, received@),
{
    let route: Route = match select_route(routes, default_key, hs.server_address.as_str()) {
        Some(route) => route,
        None => return Decision::Drop,
    };
    if hs.next_state == LOGIN_STATE && hs.protocol_version >= TRANSFER_MIN_PROTOCOL {
        let packets: Vec<u8> = transfer::build_transfer_packets(route.host.as_str(), route.port);
        return Decision::Transfer { route, packets };
    }
    Decision::Pipe { route, replay: received }
}

/// Whether the message of a failed connection tells of a disconnect that is
/// completely normal and not worth a word.
pub open spec fn is_routine(message: Seq<char>) -> bool {
    ||| text::has_part(message, "reset"@)
    ||| text::has_part(message, "closed"@)
    ||| text::has_part(message, "EOF"@)
}

/// Whether a failed handshake is worth reporting: a client that closes early is completely
/// normal.
pub fn is_failure_reported(error: HandshakeError) -> (result: bool)
    ensures
        result == (error != HandshakeError::Closed),
{
    match error {
        HandshakeError::Closed => false,
        _ => true,
    }
}

/// Whether the failure of a connection is worth reporting.
pub fn is_reported(message: &str) -> (result: bool)
    ensures
        result == !is_routine(message@),
{
    !text::contains(message, "reset") && !text::contains(message, "closed") && !text::contains(
        message,
        "EOF",
    )
}

/// A client that asks for a configured host name, in whatever case, with or without
/// port and Forge marker, gets the backend of that name, whatever the fallback.
pub proof fn law_configured_host_is_routed(
    routes: Map<Seq<char>, config::Target>,
    object: Map<Seq<char>, Seq<char>>,
    key: Seq<char>,
    fallback: Option<Seq<char>>,
    address: Seq<char>,
)
    requires
        config::serves(routes, object),
        object.contains_key(key),
        forall|other: Seq<char>| #[trigger]
            object.contains_key(other) && text::lowercase(other) == text::lowercase(key)
                ==> other == key,
        text::lowercase(text::before(text::before(address, '\0'), ':')) == text::lowercase(key),
    ensures
        selected(routes, fallback, handshake::clean_address(address)) == Some(
            config::target_of(object[key]),
        ),
{
    config::law_distinct_keys_determine_routes(routes, object, key);
}

/// Whether two connections are treated alike: dropped, sent on to the same target with
/// the same packets, or piped to the same target.
pub open spec fn treated_alike(a: Plan, b: Plan) -> bool {
    match (a, b) {
        (Plan::Drop, Plan::Drop) => true,
        (Plan::Transfer(target, packets), Plan::Transfer(other, others)) => target == other
            && packets == others,
        (Plan::Pipe(target, _), Plan::Pipe(other, _)) => target == other,
        _ => false,
    }
}

/// How a client writes its address does not matter: in another case, with a port or with
/// a Forge marker behind the host name, it gets the same route in the same way.
pub proof fn law_address_form_does_not_matter(
    routes: Map<Seq<char>, config::Target>,
    fallback: Option<Seq<char>>,
    protocol_version: i32,
    next_state: i32,
    host: Seq<char>,
    other: Seq<char>,
    suffix: Seq<char>,
    received: Seq<u8>,
    other_received: Seq<u8>,
)
    requires
        text::same_up_to_case(host, other),
    ensures
        ({
            let plan_for = |address: Seq<char>, bytes: Seq<u8>|
                plan(
                    routes,
                    fallback,
                    handshake::HandshakeFields {
                        protocol_version,
                        server_address: handshake::clean_address(address),
                        next_state,
                    },
                    bytes,
                );
            let made = plan_for(host, received);
            &&& treated_alike(made, plan_for(other, other_received))
            &&& treated_alike(made, plan_for(other + seq![':'] + suffix, other_received))
            &&& treated_alike(made, plan_for(other + seq!['\0'] + suffix, other_received))
        }),
{
    handshake::law_address_case_is_ignored(host, other);
    handshake::law_port_suffix_is_ignored(other, suffix);
    handshake::law_forge_marker_is_ignored(other, suffix);
}

/// A host name that is not configured goes to the backend of the fallback key; like
/// every key it matches without regard to case.
pub proof fn law_fallback_serves_unknown_hosts(
    routes: Map<Seq<char>, config::Target>,
    object: Map<Seq<char>, Seq<char>>,
    key: Seq<char>,
    fallback: Seq<char>,
    address: Seq<char>,
)
    requires
        config::serves(routes, object),
        object.contains_key(key),
        text::lowercase(fallback) == text::lowercase(key),
        !routes.contains_key(address),
    ensures
        selected(routes, None, address) is None,
        routes.contains_key(fallback) ==> selected(routes, Some(fallback), address) == Some(
            routes[fallback],
        ),
        !routes.contains_key(fallback) ==> selected(routes, Some(fallback), address) == Some(
            routes[text::lowercase(key)],
        ),
{
    assert(routes.contains_key(text::lowercase(key)));
}

/// The fallback does not matter to a host name that has a route.
pub proof fn law_own_route_comes_first(
    routes: Map<Seq<char>, config::Target>,
    fallback: Option<Seq<char>>,
    address: Seq<char>,
)
    requires
        routes.contains_key(address),
    ensures
        selected(routes, fallback, address) == Some(routes[address]),
{
}

/// A client is sent on exactly when it has a route, logs in and understands the
/// Transfer packet. Status pings and older clients are piped, and dropped only
/// for want of a route.
pub proof fn law_transfer_is_for_modern_logins(
    routes: Map<Seq<char>, config::Target>,
    fallback: Option<Seq<char>>,
    fields: handshake::HandshakeFields,
    received: Seq<u8>,
)
    ensures
        ({
            let target = selected(routes, fallback, fields.server_address);
            let made = plan(routes, fallback, fields, received);
            &&& made is Transfer <==> target is Some && fields.next_state == 2
                && fields.protocol_version >= 766
            &&& made is Pipe <==> target is Some && (fields.next_state != 2
                || fields.protocol_version < 766)
            &&& made is Drop <==> target is None
        }),
{
}

/// A modern client that logs in under a configured host name is sent on to its
/// backend; an older one, or one that just pings, is piped there with all it has sent.
pub proof fn law_client_reaches_its_backend(
    routes: Map<Seq<char>, config::Target>,
    object: Map<Seq<char>, Seq<char>>,
    key: Seq<char>,
    fallback: Option<Seq<char>>,
    protocol_version: i32,
    address: Seq<char>,
    port_high: u8,
    port_low: u8,
    next_state: i32,
    more: Seq<u8>,
)
    requires
        config::serves(routes, object),
        object.contains_key(key),
        forall|other: Seq<char>| #[trigger]
            object.contains_key(other) && text::lowercase(other) == text::lowercase(key)
                ==> other == key,
        text::lowercase(text::before(text::before(address, '\0'), ':')) == text::lowercase(key),
        handshake::packet_body(protocol_version, address, port_high, port_low, next_state).len()
            < 0x8000_0000,
    ensures
        ({
            let received = wire::frame(
                handshake::packet_body(protocol_version, address, port_high, port_low, next_state),
            ) + more;
            let target = config::target_of(object[key]);
            &&& handshake::reading(received) matches handshake::Reading::Complete(fields)
                && plan(routes, fallback, fields, received) == if next_state == 2
                && protocol_version >= 766 {
                Plan::Transfer(
                    target,
                    transfer::login_success() + transfer::transfer(target.host, target.port),
                )
            } else {
                Plan::Pipe(target, received)
            }
        }),
{
    handshake::law_handshake_read_back(
        protocol_version,
        address,
        port_high,
        port_low,
        next_state,
        more,
    );
    law_configured_host_is_routed(routes, object, key, fallback, address);
}

/// A backend that is piped to first gets everything the client has sent, unchanged.
pub proof fn law_pipe_replays_everything(
    routes: Map<Seq<char>, config::Target>,
    fallback: Option<Seq<char>>,
    fields: handshake::HandshakeFields,
    received: Seq<u8>,
)
    ensures
        plan(routes, fallback, fields, received) matches Plan::Pipe(target, replay) ==> replay
            == received && selected(routes, fallback, fields.server_address) == Some(target),
{
}

/// What a decision shows is what it holds, and so does an optional text.
pub proof fn law_decision_view(route: Route, bytes: Vec<u8>, key: String)
    ensures
        Decision::Drop@ == Plan::Drop,
        (Decision::Transfer { route, packets: bytes })@ == Plan::Transfer(
            config::Target { host: route.host@, port: route.port },
            bytes@,
        ),
        (Decision::Pipe { route, replay: bytes })@ == Plan::Pipe(
            config::Target { host: route.host@, port: route.port },
            bytes@,
        ),
        text_of(None) is None,
        text_of(Some(key)) == Some(key@),
{
}

/// Every target that is selected is one of the table.
pub proof fn law_selected_is_a_route(
    routes: Map<Seq<char>, config::Target>,
    fallback: Option<Seq<char>>,
    address: Seq<char>,
)
    ensures
        selected(routes, fallback, address) matches Some(target) ==> exists|name: Seq<char>|
            #[trigger] routes.contains_key(name) && routes[name] == target && (name == address
                || fallback == Some(name) || (fallback matches Some(key) && name
                == text::lowercase(key))),
{
}

/// The route of the address comes first, then that of the fallback key as it is written,
/// then that of its lower case form. Where the table has none of these, the connection is
/// dropped, and only there.
pub proof fn law_selection(
    routes: Map<Seq<char>, config::Target>,
    fallback: Option<Seq<char>>,
    fields: handshake::HandshakeFields,
    received: Seq<u8>,
)
    ensures
        ({
            let address = fields.server_address;
            let found = selected(routes, fallback, address);
            let known = routes.contains_key(address);
            &&& known ==> found == Some(routes[address])
            &&& !known && fallback is None ==> found is None
            &&& forall|key: Seq<char>|
                #![trigger routes.contains_key(key)]
                !known && fallback == Some(key) && routes.contains_key(key) ==> found == Some(
                    routes[key],
                )
            &&& forall|key: Seq<char>|
                #![trigger text::lowercase(key)]
                !known && fallback == Some(key) && !routes.contains_key(key)
                    && routes.contains_key(text::lowercase(key)) ==> found == Some(
                    routes[text::lowercase(key)],
                )
            &&& forall|key: Seq<char>|
                #![trigger text::lowercase(key)]
                !known && fallback == Some(key) && !routes.contains_key(key)
                    && !routes.contains_key(text::lowercase(key)) ==> found is None
            &&& plan(routes, fallback, fields, received) is Drop <==> found is None
        }),
{
}

/// A client that is sent on is told the target that was selected for it, be it its own or
/// that of the fallback, and nothing else: behind the Login Success packet stands the
/// Transfer packet with the host and the port of that target.
pub proof fn law_transfer_names_the_target(
    routes: Map<Seq<char>, config::Target>,
    fallback: Option<Seq<char>>,
    fields: handshake::HandshakeFields,
    received: Seq<u8>,
)
    ensures
        plan(routes, fallback, fields, received) matches Plan::Transfer(target, packets) ==> {
            &&& selected(routes, fallback, fields.server_address) == Some(target)
            &&& packets == transfer::login_success() + transfer::transfer(target.host, target.port)
            &&& transfer::transfer(target.host, target.port).len() < 0x8000_0000 ==> {
                let utf8 = vstd::utf8::encode_utf8(target.host);
                &&& varint::varint_at(packets, 20) matches Some((length, used))
                &&& 20 + used + length == packets.len()
                &&& varint::varint_at(packets, 20 + used as int + 1) matches Some((size, taken))
                &&& size == utf8.len()
                &&& packets.subrange(
                    20 + used as int + 1 + taken as int,
                    20 + used as int + 1 + taken as int + size,
                ) == utf8
                &&& varint::varint_at(
                    packets,
                    20 + used as int + 1 + taken as int + size,
                ) matches Some((port, _))
                &&& port == target.port
            }
        },
{
    if let Plan::Transfer(target, packets) = plan(routes, fallback, fields, received) {
        if transfer::transfer(target.host, target.port).len() < 0x8000_0000 {
            transfer::law_transfer_read_back(target.host, target.port);
            if let Some((_, used)) = varint::varint_at(packets, 20) {
                if let Some((size, taken)) = varint::varint_at(packets, 20 + used as int + 1) {
                    vstd::utf8::decode_utf8_encode_utf8(
                        packets.subrange(
                            20 + used as int + 1 + taken as int,
                            20 + used as int + 1 + taken as int + size,
                        ),
                    );
                }
            }
        }
    }
}

/// A message is routine exactly where it has one of three words in it.
pub proof fn law_routine_words(message: Seq<char>)
    ensures
        is_routine(message) <==> exists|front: Seq<char>, back: Seq<char>|
            {
                ||| message == #[trigger] (front + "reset"@ + back)
                ||| message == front + "closed"@ + back
                ||| message == front + "EOF"@ + back
            },
{
    text::law_has_part(message, "reset"@);
    text::law_has_part(message, "closed"@);
    text::law_has_part(message, "EOF"@);
    if is_routine(message) {
        if text::has_part(message, "reset"@) {
            let (front, back) = choose|front: Seq<char>, back: Seq<char>|
                message == #[trigger] (front + "reset"@ + back);
        } else if text::has_part(message, "closed"@) {
            let (front, back) = choose|front: Seq<char>, back: Seq<char>|
                message == #[trigger] (front + "closed"@ + back);
            let trigger_term = front + "reset"@ + back;
        } else {
            let (front, back) = choose|front: Seq<char>, back: Seq<char>|
                message == #[trigger] (front + "EOF"@ + back);
            let trigger_term = front + "reset"@ + back;
        }
    }
    assert forall|front: Seq<char>, back: Seq<char>|
        {
            ||| message == #[trigger] (front + "reset"@ + back)
            ||| message == front + "closed"@ + back
            ||| message == front + "EOF"@ + back
        } implies is_routine(message) by {
        let closed = front + "closed"@ + back;
        let eof = front + "EOF"@ + back;
    }
}

/// A route is looked up under the address, then under the fallback key, then under the lower
/// case form of that, and is always one of the table.
pub proof fn law_route_is_looked_up(
    routes: &RouteMap,
    default_key: &Option<String>,
    address: &str,
    found: Option<Route>,
)
    requires
        call_ensures(select_route, (routes, default_key, address), found),
    ensures
        ({
            let name = if routes@.contains_key(address@) {
                Some(address@)
            } else {
                match *default_key {
                    Some(key) => if routes@.contains_key(key@) {
                        Some(key@)
                    } else if routes@.contains_key(text::lowercase(key@)) {
                        Some(text::lowercase(key@))
                    } else {
                        None
                    },
                    None => None,
                }
            };
            match found {
                Some(route) => {
                    &&& name is Some
                    &&& routes@.contains_key(name->0)
                    &&& route.host@ == routes@[name->0].host
                    &&& route.port == routes@[name->0].port
                },
                None => name is None,
            }
        }),
{
}

/// A connection goes to the route that is looked up for it: a modern login with the packets
/// that are built for this route, any other with all it has sent.
pub proof fn law_connection_takes_its_route(
    routes: &RouteMap,
    default_key: &Option<String>,
    hs: &Handshake,
    received: Vec<u8>,
    decision: Decision,
    address: &str,
    found: Option<Route>,
    host: &str,
    port: u16,
    built: Vec<u8>,
)
    requires
        call_ensures(route_connection, (routes, default_key, hs, received), decision),
        address@ == hs.server_address@,
        call_ensures(select_route, (routes, default_key, address), found),
        found matches Some(route) ==> host@ == route.host@ && port == route.port,
        call_ensures(transfer::build_transfer_packets, (host, port), built),
    ensures
        match found {
            None => decision is Drop,
            Some(_) => if hs.next_state == 2 && hs.protocol_version >= 766 {
                decision matches Decision::Transfer { route, packets } && route.host@ == host@
                    && route.port == port && packets@ == built@
            } else {
                decision matches Decision::Pipe { route, replay } && route.host@ == host@
                    && route.port == port && replay@ == received@
            },
        },
{
}

/// A failure is reported unless the client closed early or the message has one of three
/// words in it.
pub proof fn law_reported(error: HandshakeError, reported: bool, message: &str, result: bool)
    requires
        call_ensures(is_failure_reported, (error,), reported),
        call_ensures(is_reported, (message,), result),
    ensures
        reported <==> error !is Closed,
        result <==> !text::has_part(message@, "reset"@) && !text::has_part(message@, "closed"@)
            && !text::has_part(message@, "EOF"@),
{
}

} // verus!
