# soe-protocol

A verified implementation of version 3 of the SOE (Sony Online Entertainment) network
protocol, a UDP transport layer used by a number of games. On top of raw UDP it adds
sessions with a negotiated handshake, heartbeats and inactivity timeouts; packet
verification by CRC32; reliable, ordered delivery on four channels, with fragmentation and
reassembly; a best-effort channel; optional compression (zlib); and optional encryption
(RC4).

The protocol logic in `src/` is a state machine that performs no I/O and reads no clock. It
is written in [Verus](https://github.com/verus-lang/verus): each function states what it
does over a mathematical model, and each statement is proved.

| Where                              | What                                                           |
| ---------------------------------- | -------------------------------------------------------------- |
| `wire`, `io`, `varint`, `packets`  | Bytes on the wire, and the packets made of them                |
| `crc32`, `packet_utils`            | Check values, validation, bundles                              |
| `rc4`, `zlib`, `buffer`            | The cipher, compression, shared byte buffers                   |
| `channel`                          | Reliable channels: sending, receiving, and what they guarantee |
| `session`, `session/model`         | One session: the state machine and its model                   |
| `socket`                           | The multiplexer: many sessions behind one socket               |
| `driver`                           | What a driver does each time it wakes up                       |

What holds of the protocol as a whole is stated by the proof functions whose names begin
with `law_`: for example that data enqueued on a reliable channel is delivered once and in
order, whatever the network loses, repeats or reorders, as long as no packet strays so far
that the 16 bits of its sequence stand for another (`channel/delivery_laws`,
`session/laws`), and that a session's opening is reported before any of its data
(`driver/laws`).

What is not proved is what the outside crates do. `buffer`, `zlib` and `io` say, next to
each call of an outside function, what is taken for granted of it.

`app/` holds the adapters that drive the core over real sockets: a blocking one over
`std::net::UdpSocket`, and async ones over Tokio.
