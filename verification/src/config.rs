//! The routing table and the settings of the proxy.

use crate::text;
use std::collections::HashMap;
use vstd::hash_map::StringHashMap;
use vstd::prelude::*;

verus! {

/// The port of a Minecraft server where none is given.
pub const DEFAULT_PORT: u16 = 25565;

/// A backend server.
#[derive(Debug)]
pub struct Route {
    pub host: String,
    pub port: u16,
}

/// The content of a [`Route`].
pub struct Target {
    pub host: Seq<char>,
    pub port: u16,
}

impl View for Route {
    type V = Target;

    open spec fn view(&self) -> Target {
        Target { host: self.host@, port: self.port }
    }
}

impl Clone for Route {
    fn clone(&self) -> (result: Route)
        ensures
            result == *self,
    {
        Route { host: self.host.clone(), port: self.port }
    }
}

/// The routing table: backends by host name in lower case.
pub struct RouteMap {
    routes: StringHashMap<Route>,
}

impl View for RouteMap {
    type V = Map<Seq<char>, Target>;

    closed spec fn view(&self) -> Map<Seq<char>, Target> {
        self.routes@.map_values(|route: Route| route@)
    }
}

impl RouteMap {
    /// An empty table.
    pub fn new() -> (result: RouteMap)
        ensures
            result@ == Map::<Seq<char>, Target>::empty(),
    {
        let result = RouteMap { routes: StringHashMap::new() };
        assert(result@ =~= Map::<Seq<char>, Target>::empty());
        result
    }

    /// Routes `hostname` to `route`, whatever it was routed to before.
    pub fn insert(&mut self, hostname: String, route: Route)
        ensures
            final(self)@ == old(self)@.insert(hostname@, route@),
    {
        self.routes.insert(hostname, route);
        assert(self@ =~= old(self)@.insert(hostname@, route@));
    }

    /// The route of `hostname`, which is looked up as it is written.
    pub fn get(&self, hostname: &str) -> (result: Option<&Route>)
        ensures
            match result {
                Some(route) => self@.contains_key(hostname@) && route@ == self@[hostname@],
                None => !self@.contains_key(hostname@),
            },
    {
        self.routes.get(hostname)
    }

    /// How many host names are routed.
    pub fn len(&self) -> (result: usize)
        ensures
            result == self@.len(),
    {
        assert(self@.dom() =~= self.routes@.dom());
        self.routes.len()
    }
}

/// The port that `text` writes, or the default one.
pub open spec fn port_or_default(text: Seq<char>) -> u16 {
    match text::port_number(text) {
        Some(port) => port,
        None => DEFAULT_PORT,
    }
}

/// Whether `c` may stand in an IPv6 address.
pub open spec fn is_ipv6_char(c: char) -> bool {
    ||| '0' <= c <= '9'
    ||| 'a' <= c <= 'f'
    ||| 'A' <= c <= 'F'
    ||| c == ':'
    ||| c == '.'
}

/// Whether `text` has the look of an IPv6 address: hexadecimal digits, dots and two
/// colons at least, and behind that perhaps a zone, from a percent sign on, without a colon.
pub open spec fn is_ipv6(text: Seq<char>) -> bool {
    let address = text::before(text, '%');
    &&& forall|i: int| 0 <= i < address.len() ==> is_ipv6_char(#[trigger] address[i])
    &&& exists|i: int, j: int|
        0 <= i < j < address.len() && #[trigger] address[i] == ':' && #[trigger] address[j] == ':'
    &&& forall|i: int| address.len() <= i < text.len() ==> #[trigger] text[i] != ':'
}

/// Whether `text` is an IPv6 address in brackets, with no port behind it.
pub open spec fn is_bracketed_ipv6(text: Seq<char>) -> bool {
    &&& text.len() >= 2
    &&& text[0] == '['
    &&& text.last() == ']'
    &&& is_ipv6(text.subrange(1, text.len() - 1))
}

/// The backend that `text` names. The port stands behind the last colon, so that an
/// IPv6 address keeps its own; an IPv6 address in brackets is all host.
pub open spec fn target_of(text: Seq<char>) -> Target {
    if is_bracketed_ipv6(text) {
        Target { host: text, port: DEFAULT_PORT }
    } else {
        match text::last_position(text, ':') {
            Some(at) => Target { host: text.take(at), port: port_or_default(text.skip(at + 1)) },
            None => Target { host: text, port: DEFAULT_PORT },
        }
    }
}

/// The table that comes of adding `entries`, pairs of host name and backend, in order.
pub open spec fn routes_of(entries: Seq<(Seq<char>, Seq<char>)>) -> Map<Seq<char>, Target>
    decreases entries.len(),
{
    if entries.len() == 0 {
        Map::empty()
    } else {
        let (hostname, target) = entries.last();
        routes_of(entries.drop_last()).insert(text::lowercase(hostname), target_of(target))
    }
}

/// The texts of a list of pairs.
pub open spec fn entries_of(pairs: Seq<(String, String)>) -> Seq<(Seq<char>, Seq<char>)> {
    pairs.map_values(|pair: (String, String)| (pair.0@, pair.1@))
}

/// Whether `entries` lists `object`, each key once, in any order.
pub open spec fn lists(
    entries: Seq<(Seq<char>, Seq<char>)>,
    object: Map<Seq<char>, Seq<char>>,
) -> bool {
    &&& forall|i: int|
        0 <= i < entries.len() ==> object.contains_key((#[trigger] entries[i]).0)
            && object[entries[i].0] == entries[i].1
    &&& forall|i: int, j: int|
        0 <= i < j < entries.len() ==> (#[trigger] entries[i]).0 != (#[trigger] entries[j]).0
    &&& forall|key: Seq<char>|
        object.contains_key(key) ==> exists|i: int|
            0 <= i < entries.len() && (#[trigger] entries[i]).0 == key
}

/// Whether `routes` is a table for `object`: every key is routed, under its lower case
/// form, and every route is that of a key with this form. Where several keys
/// share one, any of them may have the route.
pub open spec fn serves(
    routes: Map<Seq<char>, Target>,
    object: Map<Seq<char>, Seq<char>>,
) -> bool {
    &&& forall|key: Seq<char>| #[trigger]
        object.contains_key(key) ==> routes.contains_key(text::lowercase(key))
    &&& forall|name: Seq<char>| #[trigger]
        routes.contains_key(name) ==> exists|key: Seq<char>| #[trigger]
            object.contains_key(key) && text::lowercase(key) == name && routes[name] == target_of(
                object[key],
            )
}

/// The members of a JSON object whose values are strings, as `serde_json` reads it;
/// nothing where `text` is not such an object.
pub uninterp spec fn json_object(text: Seq<char>) -> Option<Map<Seq<char>, Seq<char>>>;

/// The error of `serde_json`.
#[verifier::external_type_specification]
#[verifier::external_body]
pub struct ExJsonError(serde_json::Error);

/// `serde_json::from_str` into a hash map of strings, handed out as a list: whether it
/// succeeds and what the map holds depends on the text alone; the list has each
/// member of the map once, in the order in which the map is walked, which is left open.
#[verifier::external_body]
fn parse_json_object(text: &str) -> (result: Result<Vec<(String, String)>, serde_json::Error>)
    ensures
        match result {
            Ok(pairs) => json_object(text@) matches Some(object) && lists(
                entries_of(pairs@),
                object,
            ),
            Err(_) => json_object(text@) is None,
        },
{
    let object: HashMap<String, String> = serde_json::from_str(text)?;
    Ok(object.into_iter().collect())
}

/// Why a configuration is refused.
#[derive(Debug)]
pub enum ConfigError {
    /// It is not a JSON object whose values are strings.
    Json(serde_json::Error),
}

/// Whether `target` is an IPv6 address in brackets, with no port behind it.
pub fn has_ipv6_brackets(target: &str) -> (result: bool)
    ensures
        result == is_bracketed_ipv6(target@),
{
    let chars: Vec<char> = text::chars_of(target);
    let total: usize = chars.len();
    if total < 2 || chars[0] != '[' || chars[total - 1] != ']' {
        return false;
    }
    let ghost inner = target@.subrange(1, total - 1);
    let mut i: usize = 1;
    let mut colons: usize = 0;
    let ghost mut first: int = 0;
    while i < total - 1 && chars[i] != '%'
        invariant
            1 <= i <= total - 1,
            total == chars@.len(),
            chars@ == target@,
            inner == target@.subrange(1, total - 1),
            forall|k: int| 0 <= k < i - 1 ==> is_ipv6_char(#[trigger] inner[k]) && inner[k] != '%',
            colons <= 2,
            colons == 0 ==> forall|k: int| 0 <= k < i - 1 ==> #[trigger] inner[k] != ':',
            colons > 0 ==> 0 <= first < i - 1 && inner[first] == ':',
            colons == 1 ==> forall|k: int|
                0 <= k < i - 1 && k != first ==> #[trigger] inner[k] != ':',
            colons == 2 ==> exists|k: int| first < k < i - 1 && #[trigger] inner[k] == ':',
        decreases total - i,
    {
        let c: char = chars[i];
        assert(inner[i - 1] == c);
        let is_hex: bool = ('0' <= c && c <= '9') || ('a' <= c && c <= 'f') || ('A' <= c && c
            <= 'F');
        if !is_hex && c != ':' && c != '.' {
            proof {
                lemma_not_ipv6(inner, i - 1);
            }
            return false;
        }
        if c == ':' && colons < 2 {
            proof {
                if colons == 0 {
                    first = i - 1;
                }
            }
            colons = colons + 1;
        }
        i = i + 1;
    }
    let ghost cut = i - 1;
    proof {
        if cut < inner.len() {
            assert(inner[cut] == chars@[i as int]);
        }
        text::lemma_before_is_take(inner, '%', cut);
    }
    while i < total - 1
        invariant
            1 <= cut + 1 <= i <= total - 1,
            total == chars@.len(),
            chars@ == target@,
            total >= 2,
            target@[0] == '[',
            target@[total - 1] == ']',
            inner == target@.subrange(1, total - 1),
            text::before(inner, '%') == inner.take(cut),
            forall|k: int| cut <= k < i - 1 ==> #[trigger] inner[k] != ':',
        decreases total - i,
    {
        assert(inner[i - 1] == chars@[i as int]);
        if chars[i] == ':' {
            return false;
        }
        i = i + 1;
    }
    let ghost address = inner.take(cut);
    proof {
        assert forall|k: int| 0 <= k < address.len() implies is_ipv6_char(#[trigger] address[k]) by {
            assert(address[k] == inner[k]);
        }
        if colons == 2 {
            let second = choose|k: int| first < k < cut && #[trigger] inner[k] == ':';
            assert(address[first] == ':' && address[second] == ':');
        } else {
            assert forall|k: int, l: int| 0 <= k < l < address.len() implies !(
            #[trigger] address[k] == ':' && #[trigger] address[l] == ':') by {
                assert(address[k] == inner[k] && address[l] == inner[l]);
            }
        }
    }
    colons == 2
}

/// A character that no IPv6 address has, before any percent sign.
proof fn lemma_not_ipv6(text: Seq<char>, at: int)
    requires
        0 <= at < text.len(),
        forall|i: int| 0 <= i <= at ==> #[trigger] text[i] != '%',
        !is_ipv6_char(text[at]),
    ensures
        !is_ipv6(text),
{
    let front = text.take(at + 1);
    assert forall|i: int| 0 <= i < front.len() implies front[i] != '%' by {
        assert(front[i] == text[i]);
    }
    text::lemma_before_joined(front, text.skip(at + 1), '%');
    assert(text =~= front + text.skip(at + 1));
    let address = text::before(text, '%');
    assert(address[at] == text[at]);
}

/// The backend that `target` names: `host:port`, or `host` alone.
pub fn parse_target(target: &str) -> (result: Route)
    ensures
        result@ == target_of(target@),
{
    if has_ipv6_brackets(target) {
        return Route { host: target.to_owned(), port: DEFAULT_PORT };
    }
    let total: usize = target.unicode_len();
    match text::find_last(target, ':') {
        Some(at) => {
            assert(target@.subrange(0, at as int) =~= target@.take(at as int));
            assert(target@.subrange(at + 1, total as int) =~= target@.skip(at + 1));
            Route {
                host: target.substring_char(0, at).to_owned(),
                port: match text::parse_port(target.substring_char(at + 1, total)) {
                    Some(port) => port,
                    None => DEFAULT_PORT,
                },
            }
        },
        None => Route { host: target.to_owned(), port: DEFAULT_PORT },
    }
}

/// Makes the routing table of a list of host names and backends. Where two host
/// names differ in case alone, the later one counts.
pub fn build_routes(pairs: &Vec<(String, String)>) -> (routes: RouteMap)
    ensures
        routes@ == routes_of(entries_of(pairs@)),
{
    let mut routes = RouteMap::new();
    let mut i: usize = 0;
    assert(entries_of(pairs@).take(0) =~= Seq::empty());
    while i < pairs.len()
        invariant
            i <= pairs@.len(),
            routes@ == routes_of(entries_of(pairs@).take(i as int)),
        decreases pairs@.len() - i,
    {
        let hostname: &String = &pairs[i].0;
        let target: &String = &pairs[i].1;
        routes.insert(hostname.as_str().to_lowercase(), parse_target(target.as_str()));
        i = i + 1;
        assert(entries_of(pairs@).take(i as int).drop_last() =~= entries_of(pairs@).take(i - 1));
    }
    assert(entries_of(pairs@).take(i as int) =~= entries_of(pairs@));
    routes
}

proof fn lemma_routes_of(entries: Seq<(Seq<char>, Seq<char>)>)
    ensures
        forall|i: int|
            0 <= i < entries.len() ==> routes_of(entries).contains_key(
                text::lowercase((#[trigger] entries[i]).0),
            ),
        forall|name: Seq<char>| #[trigger]
            routes_of(entries).contains_key(name) ==> exists|i: int|
                0 <= i < entries.len() && text::lowercase((#[trigger] entries[i]).0) == name
                    && routes_of(entries)[name] == target_of(entries[i].1),
    decreases entries.len(),
{
    if entries.len() > 0 {
        let fewer = entries.drop_last();
        lemma_routes_of(fewer);
        let newest = text::lowercase(entries.last().0);
        assert forall|i: int| 0 <= i < entries.len() implies routes_of(entries).contains_key(
            text::lowercase((#[trigger] entries[i]).0),
        ) by {
            if i < fewer.len() {
                assert(fewer[i] == entries[i]);
            }
        }
        assert forall|name: Seq<char>| #[trigger] routes_of(entries).contains_key(name) implies exists|
            i: int,
        |
            0 <= i < entries.len() && text::lowercase((#[trigger] entries[i]).0) == name
                && routes_of(entries)[name] == target_of(entries[i].1) by {
            if name == newest {
                assert(entries[entries.len() - 1] == entries.last());
            } else {
                assert(routes_of(fewer).contains_key(name));
                let i = choose|i: int|
                    0 <= i < fewer.len() && text::lowercase((#[trigger] fewer[i]).0) == name
                        && routes_of(fewer)[name] == target_of(fewer[i].1);
                assert(entries[i] == fewer[i]);
            }
        }
    }
}

/// The table of any listing of `object` serves it.
proof fn lemma_listing_serves(
    entries: Seq<(Seq<char>, Seq<char>)>,
    object: Map<Seq<char>, Seq<char>>,
)
    requires
        lists(entries, object),
    ensures
        serves(routes_of(entries), object),
{
    lemma_routes_of(entries);
    let routes = routes_of(entries);
    assert forall|key: Seq<char>| #[trigger] object.contains_key(key) implies routes.contains_key(
        text::lowercase(key),
    ) by {
        let i = choose|i: int| 0 <= i < entries.len() && (#[trigger] entries[i]).0 == key;
    }
    assert forall|name: Seq<char>| #[trigger] routes.contains_key(name) implies exists|
        key: Seq<char>,
    | #[trigger]
        object.contains_key(key) && text::lowercase(key) == name && routes[name] == target_of(
            object[key],
        ) by {
        let i = choose|i: int|
            0 <= i < entries.len() && text::lowercase((#[trigger] entries[i]).0) == name
                && routes[name] == target_of(entries[i].1);
        assert(object.contains_key(entries[i].0));
    }
}

/// What can be listed is finite.
proof fn lemma_listing_is_finite(
    entries: Seq<(Seq<char>, Seq<char>)>,
    object: Map<Seq<char>, Seq<char>>,
)
    requires
        lists(entries, object),
    ensures
        object.dom().finite(),
{
    let keys = entries.map_values(|entry: (Seq<char>, Seq<char>)| entry.0);
    vstd::seq_lib::seq_to_set_is_finite(keys);
    assert forall|key: Seq<char>| object.dom().contains(key) implies #[trigger]
    keys.to_set().contains(key) by {
        let i = choose|i: int| 0 <= i < entries.len() && (#[trigger] entries[i]).0 == key;
        assert(keys[i] == key);
    }
    vstd::set_lib::lemma_len_subset(object.dom(), keys.to_set());
}

/// Makes the routing table of a configuration: a flat JSON object from host names to
/// backends.
pub fn load_config(raw: &str) -> (result: Result<RouteMap, ConfigError>)
    ensures
        match result {
            Ok(routes) => json_object(raw@) matches Some(object) && serves(routes@, object)
                && object.dom().finite() && routes@.dom().finite(),
            Err(_) => json_object(raw@) is None,
        },
{
    match parse_json_object(raw) {
        Ok(pairs) => {
            proof {
                let entries = entries_of(pairs@);
                let object = json_object(raw@)->0;
                lemma_listing_serves(entries, object);
                lemma_listing_is_finite(entries, object);
                law_route_count(routes_of(entries), object);
            }
            Ok(build_routes(&pairs))
        },
        Err(error) => Err(ConfigError::Json(error)),
    }
}

/// The port to listen on, from the value of the setting.
pub fn listen_port(setting: Option<&str>) -> (port: u16)
    ensures
        port == match setting {
            Some(text) => port_or_default(text@),
            None => DEFAULT_PORT,
        },
{
    match setting {
        Some(text) => match text::parse_port(text) {
            Some(port) => port,
            None => DEFAULT_PORT,
        },
        None => DEFAULT_PORT,
    }
}

/// The fallback key, from the value of the setting: an empty one counts as none.
pub fn fallback_key(setting: Option<String>) -> (key: Option<String>)
    ensures
        key == match setting {
            Some(text) if text@.len() > 0 => Some(text),
            _ => None,
        },
{
    match setting {
        Some(text) => if text.as_str().is_empty() {
            None
        } else {
            Some(text)
        },
        None => None,
    }
}

/// The port stands behind the last colon, and the default one is meant where the text
/// there is no port. Colons before that one belong to the host.
pub proof fn law_target_with_port(host: Seq<char>, port: Seq<char>)
    requires
        !port.contains(':'),
        !is_bracketed_ipv6(host + seq![':'] + port),
    ensures
        target_of(host + seq![':'] + port) == (Target { host, port: port_or_default(port) }),
{
    let whole = host + seq![':'] + port;
    let at = host.len() as int;
    assert forall|i: int| at < i < whole.len() implies whole[i] != ':' by {
        assert(whole[i] == port[i - at - 1]);
    }
    text::lemma_last_position(whole, ':', at);
    assert(whole.take(at) =~= host);
    assert(whole.skip(at + 1) =~= port);
}

/// A backend written as host, colon and decimal port is that host and that port.
pub proof fn law_target_read_back(host: Seq<char>, port: u16)
    ensures
        target_of(host + seq![':'] + text::decimal(port as nat)) == (Target { host, port }),
{
    let digits = text::decimal(port as nat);
    text::law_port_read_back(port);
    text::lemma_decimal(port as nat);
    let whole = host + seq![':'] + digits;
    assert(whole.last() == digits[digits.len() - 1]);
    law_target_with_port(host, digits);
}

/// Where the port is omitted, it is the default one.
pub proof fn law_target_without_port(host: Seq<char>)
    requires
        !host.contains(':'),
    ensures
        target_of(host) == (Target { host, port: DEFAULT_PORT }),
        target_of(host + seq![':']) == (Target { host, port: DEFAULT_PORT }),
{
    text::lemma_no_last_position(host, ':');
    law_target_with_port(host, Seq::empty());
    assert(host + seq![':'] + Seq::<char>::empty() =~= host + seq![':']);
}

/// An IPv6 address in brackets without a port keeps its colons and gets the default port.
pub proof fn law_bracketed_target(inner: Seq<char>)
    requires
        is_ipv6(inner),
    ensures
        target_of(seq!['['] + inner + seq![']']) == (Target {
            host: seq!['['] + inner + seq![']'],
            port: DEFAULT_PORT,
        }),
{
    let whole = seq!['['] + inner + seq![']'];
    assert(whole.subrange(1, whole.len() - 1) =~= inner);
}

/// Where no two keys of a configuration differ in case alone, the table is determined:
/// each key, under its lower case form, has the backend that the configuration gives it.
pub proof fn law_distinct_keys_determine_routes(
    routes: Map<Seq<char>, Target>,
    object: Map<Seq<char>, Seq<char>>,
    key: Seq<char>,
)
    requires
        serves(routes, object),
        object.contains_key(key),
        forall|other: Seq<char>| #[trigger]
            object.contains_key(other) && text::lowercase(other) == text::lowercase(key)
                ==> other == key,
    ensures
        routes.contains_key(text::lowercase(key)),
        routes[text::lowercase(key)] == target_of(object[key]),
{
    assert(routes.contains_key(text::lowercase(key)));
}

/// Whether every key of `object` has a counterpart in `other` that differs in the case of
/// ASCII letters at most and names the same backend.
pub open spec fn matched_up_to_case(
    object: Map<Seq<char>, Seq<char>>,
    other: Map<Seq<char>, Seq<char>>,
) -> bool {
    forall|key: Seq<char>| #[trigger]
        object.contains_key(key) ==> exists|twin: Seq<char>| #[trigger]
            other.contains_key(twin) && text::same_up_to_case(key, twin) && object[key]
                == other[twin]
}

/// Whether no two keys of `object` have the same lower case form.
pub open spec fn has_distinct_keys(object: Map<Seq<char>, Seq<char>>) -> bool {
    forall|a: Seq<char>, b: Seq<char>| #[trigger]
        object.contains_key(a) && #[trigger] object.contains_key(b) && text::lowercase(a)
            == text::lowercase(b) ==> a == b
}

/// A table has no more routes than its configuration has keys, and as many exactly when
/// no two keys have the same lower case form.
pub proof fn law_route_count(
    routes: Map<Seq<char>, Target>,
    object: Map<Seq<char>, Seq<char>>,
)
    requires
        serves(routes, object),
        object.dom().finite(),
    ensures
        routes.dom().finite(),
        routes.len() <= object.len(),
        routes.len() == object.len() <==> has_distinct_keys(object),
{
    let keys = object.dom();
    let names = routes.dom();
    let lower = |key: Seq<char>| text::lowercase(key);
    assert forall|name: Seq<char>| keys.map(lower).contains(name) implies names.contains(name) by {
        let key = choose|key: Seq<char>| keys.contains(key) && lower(key) == name;
        assert(object.contains_key(key));
    }
    assert forall|name: Seq<char>| names.contains(name) implies keys.map(lower).contains(name) by {
        assert(routes.contains_key(name));
        let key = choose|key: Seq<char>| #[trigger]
            object.contains_key(key) && text::lowercase(key) == name && routes[name] == target_of(
                object[key],
            );
        assert(keys.contains(key) && lower(key) == name);
    }
    assert(keys.map(lower) =~= names);
    vstd::set_lib::lemma_map_size_bound(keys, names, lower);
    if has_distinct_keys(object) {
        assert forall|a: Seq<char>, b: Seq<char>|
            keys.contains(a) && keys.contains(b) && #[trigger] lower(a) == #[trigger] lower(
                b,
            ) implies a == b by {
            assert(object.contains_key(a) && object.contains_key(b));
        }
        vstd::set_lib::lemma_map_size(keys, names, lower);
    } else {
        let (a, b) = choose|a: Seq<char>, b: Seq<char>| #[trigger]
            object.contains_key(a) && #[trigger] object.contains_key(b) && text::lowercase(a)
                == text::lowercase(b) && a != b;
        let fewer = keys.remove(b);
        assert forall|name: Seq<char>| names.contains(name) implies fewer.map(lower).contains(
            name,
        ) by {
            assert(keys.map(lower).contains(name));
            let key = choose|key: Seq<char>| keys.contains(key) && lower(key) == name;
            let kept = if key == b {
                a
            } else {
                key
            };
            assert(fewer.contains(kept) && lower(kept) == name);
        }
        assert forall|name: Seq<char>| fewer.map(lower).contains(name) implies names.contains(
            name,
        ) by {
            let key = choose|key: Seq<char>| fewer.contains(key) && lower(key) == name;
            assert(keys.contains(key) && lower(key) == name);
            assert(keys.map(lower).contains(name));
        }
        assert(fewer.map(lower) =~= names);
        vstd::set_lib::lemma_map_size_bound(fewer, names, lower);
    }
}

proof fn lemma_matched_table(
    routes: Map<Seq<char>, Target>,
    object: Map<Seq<char>, Seq<char>>,
    other_routes: Map<Seq<char>, Target>,
    other: Map<Seq<char>, Seq<char>>,
    name: Seq<char>,
)
    requires
        serves(routes, object),
        serves(other_routes, other),
        has_distinct_keys(other),
        matched_up_to_case(object, other),
        routes.contains_key(name),
    ensures
        other_routes.contains_key(name),
        other_routes[name] == routes[name],
{
    let key = choose|key: Seq<char>| #[trigger]
        object.contains_key(key) && text::lowercase(key) == name && routes[name] == target_of(
            object[key],
        );
    let twin = choose|twin: Seq<char>| #[trigger]
        other.contains_key(twin) && text::same_up_to_case(key, twin) && object[key]
            == other[twin];
    text::law_lowercase_ignores_case(key, twin);
    law_distinct_keys_determine_routes(other_routes, other, twin);
}

/// Keys are case-insensitive: configurations whose keys differ in the case of ASCII
/// letters alone, with the same backends, give the same table.
pub proof fn law_key_case_does_not_matter(
    routes: Map<Seq<char>, Target>,
    object: Map<Seq<char>, Seq<char>>,
    other_routes: Map<Seq<char>, Target>,
    other: Map<Seq<char>, Seq<char>>,
)
    requires
        serves(routes, object),
        serves(other_routes, other),
        has_distinct_keys(object),
        has_distinct_keys(other),
        matched_up_to_case(object, other),
        matched_up_to_case(other, object),
    ensures
        routes == other_routes,
{
    assert forall|name: Seq<char>| routes.contains_key(name) implies #[trigger]
    other_routes.contains_key(name) && other_routes[name] == routes[name] by {
        lemma_matched_table(routes, object, other_routes, other, name);
    }
    assert forall|name: Seq<char>| other_routes.contains_key(name) implies #[trigger]
    routes.contains_key(name) && routes[name] == other_routes[name] by {
        lemma_matched_table(other_routes, other, routes, object, name);
    }
    assert(routes =~= other_routes);
}

/// A list that gives a host name twice, up to case, routes it by the later entry.
pub proof fn law_later_entry_counts(
    entries: Seq<(Seq<char>, Seq<char>)>,
    hostname: Seq<char>,
    target: Seq<char>,
)
    ensures
        routes_of(entries.push((hostname, target))) == routes_of(entries).insert(
            text::lowercase(hostname),
            target_of(target),
        ),
{
    assert(entries.push((hostname, target)).drop_last() =~= entries);
}

/// What a route shows is its host and its port.
pub proof fn law_route_view(route: Route)
    ensures
        route@.host == route.host@,
        route@.port == route.port,
{
}

/// A text that is no port stands for port 25565.
pub proof fn law_default_port(text: Seq<char>)
    ensures
        match text::port_number(text) {
            Some(port) => port_or_default(text) == port,
            None => port_or_default(text) == 25565,
        },
{
}

/// Brackets are those of an IPv6 address exactly where they hold hexadecimal digits, dots
/// and two colons or more, and then nothing or a percent sign and text without a colon.
pub proof fn law_bracketed_ipv6(text: Seq<char>)
    ensures
        is_bracketed_ipv6(text) <==> exists|n: int|
            {
                &&& 1 <= n < text.len()
                &&& text[0] == '['
                &&& text[text.len() - 1] == ']'
                &&& #[trigger] text[n] == '%' || n == text.len() - 1
                &&& forall|i: int|
                    1 <= i < n ==> {
                        ||| '0' <= #[trigger] text[i] <= '9'
                        ||| 'a' <= text[i] <= 'f'
                        ||| 'A' <= text[i] <= 'F'
                        ||| text[i] == ':'
                        ||| text[i] == '.'
                    }
                &&& exists|i: int, j: int|
                    1 <= i < j < n && #[trigger] text[i] == ':' && #[trigger] text[j] == ':'
                &&& forall|i: int| n <= i < text.len() ==> #[trigger] text[i] != ':'
            },
{
    let inner = text.subrange(1, text.len() - 1);
    if is_bracketed_ipv6(text) {
        let address = text::before(inner, '%');
        text::law_before(inner, '%');
        let n = address.len() + 1;
        assert forall|i: int| 1 <= i < n implies ({
            ||| '0' <= #[trigger] text[i] <= '9'
            ||| 'a' <= text[i] <= 'f'
            ||| 'A' <= text[i] <= 'F'
            ||| text[i] == ':'
            ||| text[i] == '.'
        }) by {
            assert(address[i - 1] == text[i]);
            assert(is_ipv6_char(address[i - 1]));
        }
        let (i, j) = choose|i: int, j: int|
            0 <= i < j < address.len() && #[trigger] address[i] == ':' && #[trigger] address[j]
                == ':';
        assert(text[i + 1] == address[i] && text[j + 1] == address[j]);
        assert forall|i: int| n <= i < text.len() implies #[trigger] text[i] != ':' by {
            if i < text.len() - 1 {
                assert(text[i] == inner[i - 1]);
            }
        }
        if n < text.len() - 1 {
            assert(text[n as int] == inner[n - 1]);
        }
        assert(text[n as int] == '%' || n == text.len() - 1);
    }
    assert forall|n: int|
        {
            &&& 1 <= n < text.len()
            &&& text[0] == '['
            &&& text[text.len() - 1] == ']'
            &&& #[trigger] text[n] == '%' || n == text.len() - 1
            &&& forall|i: int|
                1 <= i < n ==> {
                    ||| '0' <= #[trigger] text[i] <= '9'
                    ||| 'a' <= text[i] <= 'f'
                    ||| 'A' <= text[i] <= 'F'
                    ||| text[i] == ':'
                    ||| text[i] == '.'
                }
            &&& exists|i: int, j: int|
                1 <= i < j < n && #[trigger] text[i] == ':' && #[trigger] text[j] == ':'
            &&& forall|i: int| n <= i < text.len() ==> #[trigger] text[i] != ':'
        } implies is_bracketed_ipv6(text) by {
        let m: int = n - 1;
        assert forall|k: int| 0 <= k < m implies inner[k] != '%' by {
            assert(inner[k] == text[k + 1]);
        }
        if m < inner.len() {
            assert(inner[m] == text[n]);
        }
        text::lemma_before_is_take(inner, '%', m);
        let address = text::before(inner, '%');
        assert forall|k: int| 0 <= k < address.len() implies is_ipv6_char(#[trigger] address[k]) by {
            assert(address[k] == text[k + 1]);
        }
        let (i, j) = choose|i: int, j: int|
            1 <= i < j < n && #[trigger] text[i] == ':' && #[trigger] text[j] == ':';
        assert(address[i - 1] == text[i] && address[j - 1] == text[j]);
        assert forall|k: int| address.len() <= k < inner.len() implies #[trigger] inner[k] != ':' by {
            assert(inner[k] == text[k + 1]);
        }
    }
}

/// A backend is all host, with port 25565, where its text has no colon or is an IPv6 address
/// in brackets. Any other is a host, a colon, and a last part without one, which is the port
/// or else stands for 25565.
pub proof fn law_target(text: Seq<char>)
    ensures
        is_bracketed_ipv6(text) || !text.contains(':') ==> target_of(text).host == text
            && target_of(text).port == 25565,
        !is_bracketed_ipv6(text) && text.contains(':') ==> exists|port: Seq<char>|
            {
                &&& text == #[trigger] (target_of(text).host + seq![':'] + port)
                &&& !port.contains(':')
                &&& target_of(text).port == match text::port_number(port) {
                    Some(number) => number,
                    None => 25565,
                }
            },
{
    text::law_last_position(text, ':');
    if let Some(at) = text::last_position(text, ':') {
        let port = text.skip(at + 1);
        assert(text.contains(text[at]));
        if !is_bracketed_ipv6(text) {
            assert(text =~= target_of(text).host + seq![':'] + port);
        }
    }
}

/// A name is routed exactly where some entry has it as its lower case form.
pub proof fn law_entries_are_routed(entries: Seq<(Seq<char>, Seq<char>)>, name: Seq<char>)
    ensures
        routes_of(entries).contains_key(name) <==> exists|i: int|
            0 <= i < entries.len() && text::lowercase((#[trigger] entries[i]).0) == name,
{
    lemma_routes_of(entries);
}

/// Of the entries with one lower case form, the last has the route.
pub proof fn law_last_entry_routes(entries: Seq<(Seq<char>, Seq<char>)>, at: int)
    requires
        0 <= at < entries.len(),
        forall|i: int|
            at < i < entries.len() ==> text::lowercase((#[trigger] entries[i]).0)
                != text::lowercase(entries[at].0),
    ensures
        routes_of(entries)[text::lowercase(entries[at].0)] == target_of(entries[at].1),
    decreases entries.len(),
{
    let last = entries.len() - 1;
    if at < last {
        let fewer = entries.drop_last();
        assert forall|i: int| at < i < fewer.len() implies text::lowercase((#[trigger] fewer[i]).0)
            != text::lowercase(fewer[at].0) by {
            assert(fewer[i] == entries[i]);
        }
        law_last_entry_routes(fewer, at);
        assert(text::lowercase(entries[last].0) != text::lowercase(entries[at].0));
    }
}

/// A host name of ASCII characters without capital letters is routed under itself, whole,
/// to the backend of its last entry.
pub proof fn law_plain_names_are_keys(entries: Seq<(Seq<char>, Seq<char>)>, at: int)
    requires
        0 <= at < entries.len(),
        vstd::utf8::is_ascii_chars(entries[at].0),
        forall|i: int| 0 <= i < entries[at].0.len() ==> !('A' <= #[trigger] entries[at].0[i] <= 'Z'),
        forall|i: int|
            at < i < entries.len() ==> text::lowercase((#[trigger] entries[i]).0) != entries[at].0,
    ensures
        routes_of(entries).contains_key(entries[at].0),
        routes_of(entries)[entries[at].0] == target_of(entries[at].1),
{
    text::law_lowercase_of_ascii(entries[at].0);
    law_entries_are_routed(entries, entries[at].0);
    law_last_entry_routes(entries, at);
}

/// The entries of a list are its pairs, one for one.
pub proof fn law_entries_of(pairs: Seq<(String, String)>)
    ensures
        entries_of(pairs).len() == pairs.len(),
        forall|i: int|
            0 <= i < pairs.len() ==> (#[trigger] entries_of(pairs)[i]).0 == pairs[i].0@
                && entries_of(pairs)[i].1 == pairs[i].1@,
{
}

/// A table routes the lower case forms of the keys of its configuration and no other
/// names, each to the backend of a key with that form.
pub proof fn law_table_has_the_keys(
    routes: Map<Seq<char>, Target>,
    object: Map<Seq<char>, Seq<char>>,
    name: Seq<char>,
)
    requires
        serves(routes, object),
    ensures
        routes.contains_key(name) <==> exists|key: Seq<char>| #[trigger]
            object.contains_key(key) && text::lowercase(key) == name,
        routes.contains_key(name) ==> exists|key: Seq<char>| #[trigger]
            object.contains_key(key) && text::lowercase(key) == name && routes[name] == target_of(
                object[key],
            ),
{
}

/// The port to listen on is the one that the setting writes; without a setting, or with one
/// that writes none, it is 25565.
pub proof fn law_listen_port(setting: Option<&str>, port: u16)
    requires
        call_ensures(listen_port, (setting,), port),
    ensures
        setting is None ==> port == 25565,
        setting matches Some(text) ==> match text::port_number(text@) {
            Some(number) => port == number,
            None => port == 25565,
        },
{
}

/// The fallback key is the setting itself, unless that is missing or empty.
pub proof fn law_fallback_key(setting: Option<String>, key: Option<String>)
    requires
        call_ensures(fallback_key, (setting,), key),
    ensures
        key is Some ==> key == setting,
        key is None <==> (setting matches Some(text) ==> text@.len() == 0),
{
}

/// A lookup finds the route of exactly the name that is asked for.
pub proof fn law_lookup(routes: &RouteMap, hostname: &str, found: Option<&Route>, count: usize)
    requires
        call_ensures(RouteMap::get, (routes, hostname), found),
        call_ensures(RouteMap::len, (routes,), count),
    ensures
        found is Some <==> routes@.contains_key(hostname@),
        found matches Some(route) ==> route.host@ == routes@[hostname@].host && route.port
            == routes@[hostname@].port,
        count == routes@.len(),
{
}

/// A backend is read whole, with port 25565, where it is an IPv6 address in brackets or has no
/// colon; else it is a host, a colon, and the port or what stands for 25565.
pub proof fn law_parsed_target(target: &str, route: Route)
    requires
        call_ensures(parse_target, (target,), route),
    ensures
        is_bracketed_ipv6(target@) || !target@.contains(':') ==> route.host@ == target@
            && route.port == 25565,
        !is_bracketed_ipv6(target@) && target@.contains(':') ==> exists|port: Seq<char>|
            {
                &&& target@ == #[trigger] (route.host@ + seq![':'] + port)
                &&& !port.contains(':')
                &&& route.port == match text::port_number(port) {
                    Some(number) => number,
                    None => 25565,
                }
            },
{
    law_target(target@);
}

/// A list is made into a table that has the lower case form of each host name, and no other
/// key, with the backend of the last entry that has this form.
pub proof fn law_built_routes(
    pairs: &Vec<(String, String)>,
    routes: RouteMap,
    name: Seq<char>,
    at: int,
    target: &str,
    route: Route,
)
    requires
        call_ensures(build_routes, (pairs,), routes),
        call_ensures(parse_target, (target,), route),
        0 <= at < pairs@.len(),
        target@ == pairs@[at].1@,
        forall|i: int|
            at < i < pairs@.len() ==> text::lowercase((#[trigger] pairs@[i]).0@)
                != text::lowercase(pairs@[at].0@),
    ensures
        routes@.contains_key(name) <==> exists|i: int|
            0 <= i < pairs@.len() && text::lowercase((#[trigger] pairs@[i]).0@) == name,
        routes@[text::lowercase(pairs@[at].0@)] == (Target { host: route.host@, port: route.port }),
{
    let entries = entries_of(pairs@);
    law_entries_are_routed(entries, name);
    if routes@.contains_key(name) {
        let i = choose|i: int|
            0 <= i < entries.len() && text::lowercase((#[trigger] entries[i]).0) == name;
        assert(pairs@[i].0@ == entries[i].0);
    }
    assert forall|i: int| 0 <= i < pairs@.len() && text::lowercase((#[trigger] pairs@[i]).0@)
        == name implies routes@.contains_key(name) by {
        assert(entries[i].0 == pairs@[i].0@);
    }
    assert forall|i: int| at < i < entries.len() implies text::lowercase((#[trigger] entries[i]).0)
        != text::lowercase(entries[at].0) by {
        assert(entries[i].0 == pairs@[i].0@);
    }
    law_last_entry_routes(entries, at);
}

/// A configuration is made into a table that has the lower case form of each key, and no
/// other, and it is refused only where it is no JSON object of strings.
pub proof fn law_loaded_routes(
    raw: &str,
    result: Result<RouteMap, ConfigError>,
    name: Seq<char>,
)
    requires
        call_ensures(load_config, (raw,), result),
    ensures
        result is Ok <==> json_object(raw@) is Some,
        result matches Ok(routes) ==> (json_object(raw@) matches Some(object) && {
            &&& routes@.contains_key(name) <==> exists|key: Seq<char>| #[trigger]
                object.contains_key(key) && text::lowercase(key) == name
            &&& routes@.contains_key(name) ==> exists|key: Seq<char>| #[trigger]
                object.contains_key(key) && text::lowercase(key) == name && routes@[name]
                    == target_of(object[key])
        }),
{
}

} // verus!
