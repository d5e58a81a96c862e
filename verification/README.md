# milli_http

Building blocks for HTTP/3 on small systems, verified with Verus: QUIC packet
construction and loss-recovery bookkeeping, a TLS 1.3 record layer over TCP,
Ed25519 certificates, HTTP/3 client and server front ends, and server-sent
events. Every state machine is free of I/O: bytes go in, bytes come out, events
are polled.

- `src/buf.rs`, `src/bytes.rs`, `src/varint.rs`: buffers and integers
- `src/frame.rs`, `src/packet.rs`: QUIC frames and packet headers
- `src/transport/`: sent packets, acknowledgements, windows, streams
- `src/connection/`: QUIC connections and the datagrams they send
- `src/tcp_tls/`: TLS 1.3 records over TCP
- `src/crypto/`: the cipher traits, the key schedule, Ed25519 and certificates
- `src/tls/`: the handshake engine as the record layers see it
- `src/http/`: server-sent events, status codes, the unified server interface
- `src/h3/`: header fields, frames, clients and servers of HTTP/3
- `src/fixed.rs`: the fixed-capacity collections of `heapless`

Each `laws.rs` states what the functions of its directory promise together.
Beside them, `connection/peer.rs` states what the receiver of a packet reads,
`connection/ending.rs` how a connection ends, `tcp_tls/split.rs` and
`h3/pieces.rs` that it does not matter how received bytes are cut,
`h3/delivery.rs` that what one end of an HTTP/3 connection sends the other reads,
and `h3/body.rs` that a body sent in parts is read whole.

Cryptography and the TLS handshake are supplied by the user of the library
through the traits `CryptoProvider` and `TlsSession`; what their methods compute
is named by the spec functions of these traits.
