# mc-router

A reverse proxy for Minecraft Java Edition. It reads the host name that a client
typed from the Handshake packet and sends the client to the backend configured for it.

- `src/` is the routing core, verified with Verus: VarInts and strings on the wire,
  the Handshake parser and the way it collects its bytes, the routing table, the
  choice of a route, and the Transfer packets.
- `app/` is the program around it: sockets, timeouts, the configuration file and its
  reload.

## Configuration

`config.json` maps host names to backends, `host:port`:

```json
{
  "lobby.example.com": "10.0.0.1:25570",
  "main.example.com": "backend.example.net"
}
```

The port defaults to `25565`; an IPv6 address without a port stands in brackets. Host
names match without regard to case.

| Variable           | Default       | Meaning                                       |
|--------------------|---------------|-----------------------------------------------|
| `MC_PORT`          | `25565`       | port to listen on                             |
| `MC_CONFIG`        | `config.json` | path of the configuration                     |
| `MC_DEFAULT_ROUTE` | not set       | host name whose backend takes unknown clients |

## Transfer

A client of protocol version 766 (1.20.5) or later that logs in gets a Login Success
and a Transfer packet and connects to the backend by itself. Older clients and status
pings are piped: the backend first gets every byte the client has sent so far.

## What is proved

The contracts in `src/` fix each result. The `law_` functions state what holds across
them: that VarInts, strings, Handshake and Transfer packets are read back as they were
written, that it does not matter how the bytes of a connection are cut into reads, that
none of them is lost, that a connection whose handshake takes more than 4 KB is dropped,
that the case of host names does not matter, and that a client which asks for a configured
host name reaches its backend.

Three things are taken on trust: `str::to_lowercase`, `std::str::from_utf8` and
`serde_json::from_str`. Their declarations in `src/text.rs` and `src/config.rs` say what
is claimed of them.
