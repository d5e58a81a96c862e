use milli_http::connection::{Connection, ConnectionId};
use milli_http::crypto::{
    Aead, CryptoProvider, DirectionalKeys, HeaderProtection, Hkdf, Level,
};
use milli_http::error::Error;
use milli_http::h3::client::H3Client;
use milli_http::h3::huffman::huffman_decode;
use milli_http::h3::qpack::{decode_section, encode_section};
use milli_http::h3::server::{map_h3_event, H3Server};
use milli_http::h3::static_table::lookup;
use milli_http::h3::stream::H3Event;
use milli_http::tls::{DerivedKeys, TlsSession};
use milli_http::{ConnectionState, HandshakePool, HttpEvent, HttpServerConn};

/// Mixes bytes into a running value.
fn mix(mut h: u64, data: &[u8]) -> u64 {
    for b in data {
        h = (h ^ *b as u64).wrapping_mul(0x100_0000_01b3).rotate_left(7);
    }
    h
}

/// A cipher for tests: a keyed stream and a keyed checksum.
struct ToyAead {
    key: Vec<u8>,
}

impl ToyAead {
    fn stream(&self, nonce: &[u8; 12], i: usize) -> u8 {
        (mix(mix(7, &self.key), nonce).wrapping_add(i as u64 * 0x9e37) >> 3) as u8
    }

    fn tag(&self, nonce: &[u8; 12], aad: &[u8], plain: &[u8]) -> [u8; 16] {
        let a = mix(mix(mix(mix(1, &self.key), nonce), aad), plain).to_be_bytes();
        let b = mix(mix(mix(mix(2, &self.key), nonce), aad), plain).to_be_bytes();
        let mut t = [0u8; 16];
        t[..8].copy_from_slice(&a);
        t[8..].copy_from_slice(&b);
        t
    }
}

impl Aead for ToyAead {
    fn seal_in_place(
        &self,
        nonce: &[u8; 12],
        aad: &[u8],
        buf: &mut [u8],
        payload_len: usize,
    ) -> Result<usize, Error> {
        let total = payload_len + 16;
        if buf.len() < total {
            return Err(Error::BufferTooSmall { needed: total });
        }
        let tag = self.tag(nonce, aad, &buf[..payload_len]);
        for i in 0..payload_len {
            buf[i] ^= self.stream(nonce, i);
        }
        buf[payload_len..total].copy_from_slice(&tag);
        Ok(total)
    }

    fn open_in_place(
        &self,
        nonce: &[u8; 12],
        aad: &[u8],
        buf: &mut [u8],
        ciphertext_len: usize,
    ) -> Result<usize, Error> {
        if ciphertext_len < 16 {
            return Err(Error::Crypto);
        }
        let n = ciphertext_len - 16;
        let mut plain = buf[..n].to_vec();
        for (i, b) in plain.iter_mut().enumerate() {
            *b ^= self.stream(nonce, i);
        }
        if self.tag(nonce, aad, &plain) != buf[n..ciphertext_len] {
            return Err(Error::Crypto);
        }
        buf[..n].copy_from_slice(&plain);
        Ok(n)
    }
}

/// Header protection for tests.
struct ToyMask {
    key: u8,
}

impl HeaderProtection for ToyMask {
    fn mask(&self, sample: &[u8; 16]) -> [u8; 5] {
        let h = mix(self.key as u64, sample).to_be_bytes();
        [h[0], h[1], h[2], h[3], h[4]]
    }
}

/// Key expansion for tests.
#[derive(Default)]
struct ToyHkdf;

impl Hkdf for ToyHkdf {
    fn expand(&self, prk: &[u8], info: &[u8], okm: &mut [u8]) -> Result<(), Error> {
        let h = mix(mix(11, prk), info);
        for (i, b) in okm.iter_mut().enumerate() {
            *b = (mix(h, &[i as u8]) >> 11) as u8;
        }
        Ok(())
    }
}

struct Toy;

impl CryptoProvider for Toy {
    type Aead = ToyAead;
    type HeaderProtection = ToyMask;
    type Hkdf = ToyHkdf;
    type InitialAead = ToyAead;
    type InitialHeaderProtection = ToyMask;
    type Tls = ToyTls;

    fn key_len(&self) -> usize {
        16
    }

    fn aead(&self, key: &[u8]) -> Result<ToyAead, Error> {
        Ok(ToyAead { key: key.to_vec() })
    }
}

/// A handshake engine for tests: the messages of TLS 1.3 in their order, with
/// traffic secrets that both sides know.
struct ToyTls {
    server: bool,
    cert: Vec<u8>,
    limit: u16,
    peer_limit: Option<u16>,
    alpn: Option<Vec<u8>>,
    hello_sent: bool,
    output: Vec<(Level, Vec<u8>, bool)>,
    keys: Vec<DerivedKeys>,
    complete: bool,
}

fn message(kind: u8, body: &[u8]) -> Vec<u8> {
    let mut m = vec![kind, 0, (body.len() >> 8) as u8, body.len() as u8];
    m.extend_from_slice(body);
    m
}

impl ToyTls {
    fn new(server: bool, cert: Vec<u8>) -> Self {
        ToyTls {
            server,
            cert,
            limit: 16385,
            peer_limit: None,
            alpn: None,
            hello_sent: server,
            output: Vec::new(),
            keys: Vec::new(),
            complete: false,
        }
    }

    fn secrets(&self, level: Level) -> DerivedKeys {
        let base = if level == Level::Handshake { 0x10 } else { 0x20 };
        let client = [base; 48];
        let server = [base + 1; 48];
        let (send_secret, recv_secret) =
            if self.server { (server, client) } else { (client, server) };
        DerivedKeys { level, send_secret, recv_secret, secret_len: 32 }
    }

    fn read_message(&mut self, level: Level, kind: u8, body: &[u8]) -> Result<(), Error> {
        match (self.server, level, kind) {
            (true, Level::Initial, 1) => {
                self.peer_limit = Some(u16::from_be_bytes([body[0], body[1]]));
                self.alpn = Some(body[2..].to_vec());
                let mut flight = message(8, &[&self.limit.to_be_bytes()[..], &body[2..]].concat());
                flight.extend(message(11, &self.cert));
                flight.extend(message(15, &[0x5a; 64]));
                flight.extend(message(20, &[0x33; 32]));
                self.output.push((Level::Initial, message(2, &[0x77; 40]), false));
                self.output.push((Level::Handshake, flight, false));
                let hs = self.secrets(Level::Handshake);
                let app = self.secrets(Level::Application);
                self.keys.push(hs);
                self.keys.push(app);
                Ok(())
            }
            (false, Level::Initial, 2) => {
                let hs = self.secrets(Level::Handshake);
                self.keys.push(hs);
                Ok(())
            }
            (false, Level::Handshake, 8) => {
                self.peer_limit = Some(u16::from_be_bytes([body[0], body[1]]));
                self.alpn = Some(body[2..].to_vec());
                Ok(())
            }
            (false, Level::Handshake, 11) | (false, Level::Handshake, 15) => Ok(()),
            (false, Level::Handshake, 20) => {
                let app = self.secrets(Level::Application);
                self.keys.push(app);
                self.output.push((Level::Handshake, message(20, &[0x44; 32]), true));
                Ok(())
            }
            (true, Level::Handshake, 20) => {
                self.complete = true;
                Ok(())
            }
            _ => Err(Error::Tls),
        }
    }
}

impl TlsSession for ToyTls {
    type ClientConfig = ();
    type ServerConfig = Vec<u8>;

    fn new_tcp_client(_config: (), _secret: [u8; 32], _random: [u8; 32]) -> Self {
        ToyTls::new(false, Vec::new())
    }

    fn new_tcp_server(config: Vec<u8>, _secret: [u8; 32], _random: [u8; 32]) -> Self {
        ToyTls::new(true, config)
    }

    fn read_handshake(&mut self, level: Level, data: &[u8]) -> Result<(), Error> {
        let mut off = 0;
        while off < data.len() {
            if data.len() - off < 4 {
                return Err(Error::Tls);
            }
            let len = data[off + 2] as usize * 256 + data[off + 3] as usize;
            if data.len() - off - 4 < len {
                return Err(Error::Tls);
            }
            self.read_message(level, data[off], &data[off + 4..off + 4 + len])?;
            off += 4 + len;
        }
        Ok(())
    }

    fn write_handshake(&mut self, buf: &mut [u8]) -> Result<(usize, Level), Error> {
        if !self.hello_sent {
            self.hello_sent = true;
            let hello = message(1, &[&self.limit.to_be_bytes()[..], b"h2"].concat());
            self.output.push((Level::Initial, hello, false));
        }
        if self.output.is_empty() {
            return Ok((0, Level::Initial));
        }
        let (level, data, last) = self.output.remove(0);
        if data.len() > buf.len() {
            return Err(Error::BufferTooSmall { needed: data.len() });
        }
        buf[..data.len()].copy_from_slice(&data);
        if last {
            self.complete = true;
        }
        Ok((data.len(), level))
    }

    fn derived_keys(&mut self) -> Option<DerivedKeys> {
        if self.keys.is_empty() {
            None
        } else {
            Some(self.keys.remove(0))
        }
    }

    fn set_local_record_size_limit(&mut self, limit: u16) {
        self.limit = limit;
    }

    fn shrink_post_handshake(&mut self) {
        self.cert = Vec::new();
    }

    fn is_complete(&self) -> bool {
        self.complete
    }

    fn alpn(&self) -> Option<&[u8]> {
        self.alpn.as_deref()
    }

    fn peer_record_size_limit(&self) -> Option<u16> {
        self.peer_limit
    }
}

type Client = H3Client<Toy, 8, 32, 4, 1024, 16, 512, 64>;
type Server = H3Server<Toy, 8, 32, 4, 1024, 16, 512, 64>;
type Pool = HandshakePool<Toy, 4, 4096>;

fn keys(seed: u8) -> DirectionalKeys<ToyAead, ToyMask> {
    DirectionalKeys {
        aead: ToyAead { key: vec![seed; 16] },
        iv: [seed; 12],
        header_protection: ToyMask { key: seed },
    }
}

fn make_client(pool: &mut Pool) -> Client {
    let quic = Connection::client(
        Toy,
        ToyTls::new(false, Vec::new()),
        keys(1),
        ConnectionId::from_slice(&[0x10; 8]).unwrap(),
        ConnectionId::from_slice(&[0x20; 8]).unwrap(),
        pool,
    )
    .unwrap();
    Client::new(quic)
}

fn make_server(pool: &mut Pool) -> Server {
    let quic = Connection::server(
        Toy,
        ToyTls::new(true, vec![0xCE; 200]),
        ConnectionId::from_slice(&[0x20; 8]).unwrap(),
        ConnectionId::from_slice(&[0x10; 8]).unwrap(),
        pool,
    )
    .unwrap();
    Server::new(quic)
}

/// Hands what a client queued to a server.
fn to_server(client: &mut Client, server: &mut Server) {
    while !client.inner.sio_bufs.send_queue.is_empty() {
        let e = client.inner.sio_bufs.send_queue.remove(0);
        server.stream_received(e.stream_id, &e.data, e.fin);
    }
}

/// Hands what a server queued to a client, byte by byte.
fn to_client(server: &mut Server, client: &mut Client) {
    while !server.inner.sio_bufs.send_queue.is_empty() {
        let e = server.inner.sio_bufs.send_queue.remove(0);
        for i in 0..e.data.len() {
            let last = i + 1 == e.data.len();
            client.stream_received(e.stream_id, &e.data[i..i + 1], e.fin && last);
        }
    }
}

fn field(list: &[(Vec<u8>, Vec<u8>)], i: usize) -> (&[u8], &[u8]) {
    (&list[i].0, &list[i].1)
}

#[test]
fn request_and_response() {
    let mut scratch = [0u8; 64];
    let mut pool = HandshakePool::new();
    let mut client = make_client(&mut pool);
    let mut server = make_server(&mut pool);

    let id = client
        .send_request("GET", "/index", "test.local", &[(b"accept", b"*/*")], true)
        .unwrap();
    assert_eq!(id, 0);
    to_server(&mut client, &mut server);
    assert_eq!(server.poll_event(&mut scratch), Some(H3Event::Headers(0)));
    assert_eq!(server.poll_event(&mut scratch), Some(H3Event::Finished(0)));
    assert_eq!(server.poll_event(&mut scratch), None);
    let list = server.recv_headers(0).unwrap();
    assert_eq!(list.len(), 5);
    assert_eq!(field(&list, 0), (&b":method"[..], &b"GET"[..]));
    assert_eq!(field(&list, 1), (&b":scheme"[..], &b"https"[..]));
    assert_eq!(field(&list, 2), (&b":authority"[..], &b"test.local"[..]));
    assert_eq!(field(&list, 3), (&b":path"[..], &b"/index"[..]));
    assert_eq!(field(&list, 4), (&b"accept"[..], &b"*/*"[..]));

    server
        .send_response(0, 404, &[(b"server", b"milli")], false)
        .unwrap();
    assert_eq!(server.send_body(0, b"not here", true), Ok(8));
    to_client(&mut server, &mut client);
    assert_eq!(client.poll_event(&mut scratch), Some(H3Event::Headers(0)));
    let list = client.recv_headers(0).unwrap();
    assert_eq!(field(&list, 0), (&b":status"[..], &b"404"[..]));
    assert_eq!(field(&list, 1), (&b"server"[..], &b"milli"[..]));
    let mut buf = [0u8; 32];
    assert_eq!(client.recv_body(0, &mut buf), Ok((8, true)));
    assert_eq!(&buf[..8], b"not here");
}

#[test]
fn large_body_waits_until_it_is_read() {
    let mut scratch = [0u8; 64];
    let mut pool = HandshakePool::new();
    let mut client = make_client(&mut pool);
    let mut server = make_server(&mut pool);
    let id = client.send_request("POST", "/", "h", &[], false).unwrap();
    let body: Vec<u8> = (0..300u32).map(|i| i as u8).collect();
    assert_eq!(client.send_body(id, &body, true), Ok(300));
    to_server(&mut client, &mut server);
    assert_eq!(server.poll_event(&mut scratch), Some(H3Event::Headers(0)));
    let mut got = Vec::new();
    let mut last = false;
    while !last {
        let mut buf = [0u8; 50];
        let (n, fin) = server.recv_body(id, &mut buf).unwrap();
        assert!(n > 0);
        got.extend_from_slice(&buf[..n]);
        last = fin;
    }
    assert_eq!(got, body);
    let mut buf = [0u8; 50];
    assert_eq!(server.recv_body(id, &mut buf), Ok((0, true)));
}

#[test]
fn too_many_headers_change_nothing() {
    let mut pool = HandshakePool::new();
    let mut client = make_client(&mut pool);
    let h: Vec<(&[u8], &[u8])> = (0..17).map(|_| (&b"n"[..], &b"v"[..])).collect();
    assert_eq!(
        client.send_request("GET", "/", "h", &h, true),
        Err(Error::TooManyHeaders)
    );
    assert_eq!(client.send_request("GET", "/", "h", &h[..16], true), Ok(0));
    let mut server = make_server(&mut pool);
    let h: Vec<(&[u8], &[u8])> = (0..20).map(|_| (&b"n"[..], &b"v"[..])).collect();
    to_server(&mut client, &mut server);
    assert_eq!(server.inner.process_quic_events(true, &mut [0u8; 32]), Ok(()));
    assert_eq!(
        server.send_response(0, 200, &h, true),
        Err(Error::TooManyHeaders)
    );
    assert_eq!(server.send_response(0, 200, &h[..19], true), Ok(()));
    assert_eq!(
        server.send_response(0, 200, &[], true),
        Err(Error::InvalidState)
    );
    assert_eq!(
        server.send_response(4, 200, &[], true),
        Err(Error::UnknownStream)
    );
}

#[test]
fn large_headers_are_refused() {
    let mut pool = HandshakePool::new();
    let mut client = make_client(&mut pool);
    let big = vec![b'x'; 600];
    match client.send_request("GET", "/", "h", &[(b"cookie", &big)], true) {
        Err(Error::BufferTooSmall { needed }) => assert!(needed > 600),
        other => panic!("{:?}", other),
    }
    let mut server = make_server(&mut pool);
    server.stream_received(0, &[0x01, 0x42, 0x01], false);
    assert_eq!(
        server.inner.process_quic_events(true, &mut [0u8; 32]),
        Err(Error::BufferTooSmall { needed: 513 })
    );
}

#[test]
fn streams_of_no_concern_are_passed_over() {
    let mut scratch = [0u8; 64];
    let mut pool = HandshakePool::new();
    let mut client = make_client(&mut pool);
    let mut server = make_server(&mut pool);
    server.stream_received(2, &[0, 4, 0], false);
    client.stream_received(0, &[1, 2, 0, 0], false);
    assert_eq!(server.poll_event(&mut scratch), None);
    assert_eq!(client.poll_event(&mut scratch), None);
    assert!(matches!(client.recv_headers(0), Err(Error::UnknownStream)));
    let mut buf = [0u8; 4];
    assert_eq!(client.recv_body(0, &mut buf), Err(Error::UnknownStream));
    // A frame of another type, then the headers.
    server.stream_received(0, &[0x21, 3, 9, 9, 9], false);
    assert_eq!(server.poll_event(&mut scratch), None);
    assert!(matches!(server.recv_headers(0), Err(Error::WouldBlock)));
    server.stream_received(0, &[1, 2, 0, 0], true);
    // Without room nothing is read.
    assert_eq!(server.poll_event(&mut []), None);
    assert_eq!(server.inner.inbox.len(), 1);
    assert_eq!(server.poll_event(&mut scratch), Some(H3Event::Headers(0)));
    assert_eq!(server.poll_event(&mut scratch), Some(H3Event::Finished(0)));
    assert_eq!(server.recv_headers(0).unwrap().len(), 0);
}

#[test]
fn events_of_the_transport_come_in_order() {
    let mut scratch = [0u8; 64];
    let mut pool = HandshakePool::new();
    let mut server = make_server(&mut pool);
    server.transport_event(H3Event::Connected);
    server.transport_event(H3Event::StreamReset { stream_id: 4, error_code: 7 });
    server.transport_event(H3Event::GoAway(8));
    server.transport_event(H3Event::ConnectionClose { error_code: 9 });
    let mut seen = Vec::new();
    while let Some(e) = HttpServerConn::poll_event(&mut server, &mut scratch) {
        seen.push(e);
    }
    assert_eq!(
        seen,
        vec![
            HttpEvent::Connected,
            HttpEvent::StreamReset { stream_id: 4, error_code: 7 },
            HttpEvent::GoAway { error_code: 0 },
            HttpEvent::GoAway { error_code: 9 },
        ]
    );
    assert_eq!(map_h3_event(H3Event::Data(3)), HttpEvent::Data(3));
    assert_eq!(map_h3_event(H3Event::Headers(3)), HttpEvent::Headers(3));
    assert_eq!(map_h3_event(H3Event::Finished(3)), HttpEvent::Finished(3));
}

#[test]
fn unified_interface() {
    let mut pool = HandshakePool::new();
    let mut client = make_client(&mut pool);
    assert_eq!(
        HttpServerConn::send_response(&mut client, 0, 200, &[], true),
        Err(Error::InvalidState)
    );
    assert_eq!(client.tcp_feed_data(b"x"), Ok(()));
    let mut buf = [0u8; 8];
    assert!(client.tcp_poll_output(&mut buf).is_none());
    assert!(!HttpServerConn::is_established(&client));
    assert!(!HttpServerConn::is_closed(&client));
    assert_eq!(
        HttpServerConn::send_body(&mut client, 0, b"x", true),
        Err(Error::UnknownStream)
    );
    assert_eq!(
        HttpServerConn::recv_body(&mut client, 0, &mut buf),
        Err(Error::UnknownStream)
    );
    assert!(matches!(
        HttpServerConn::recv_headers(&mut client, 0),
        Err(Error::UnknownStream)
    ));
}

#[test]
fn close_is_sent_once() {
    let mut pool = HandshakePool::new();
    let mut client = make_client(&mut pool);
    client.close(3, b"bye");
    assert_eq!(client.inner.quic.state(), ConnectionState::Closing);
    let mut buf = [0u8; 2048];
    assert!(client.poll_transmit(&mut buf, 0, &mut pool).is_some());
    assert!(client.is_closed());
    assert!(!client.is_established());
    assert!(client.poll_transmit(&mut buf, 0, &mut pool).is_none());
}

#[test]
fn failed_server_gives_its_slot_back() {
    let mut pool = HandshakePool::<Toy, 4, 4096>::new();
    let mut server = make_server(&mut pool);
    assert_eq!(server.inner.quic.handshake_slot, Some(0));
    assert!(pool.slots[0].is_some());
    server.release_handshake_slot(&mut pool);
    assert_eq!(server.inner.quic.handshake_slot, None);
    assert!(pool.slots[0].is_none());
    server.release_handshake_slot(&mut pool);
    assert!(pool.slots[0].is_none());
}

#[test]
fn sections_byte_for_byte() {
    let block = encode_section(&[(b":path", b"/")]);
    assert_eq!(block, b"\x00\x00\x25:path\x01/");
    let long_name = [b'n'; 300];
    let long_value = [b'v'; 1000];
    let block = encode_section(&[(&long_name, &long_value), (b"", b"")]);
    assert_eq!(&block[..5], &[0, 0, 0x27, 0xa5, 0x02]);
    assert_eq!(&block[305..308], &[0x7f, 0xe9, 0x06]);
    let list = decode_section(&block).unwrap();
    assert_eq!(list.len(), 2);
    assert_eq!(list[0].0, long_name.to_vec());
    assert_eq!(list[0].1, long_value.to_vec());
    assert_eq!(list[1], (Vec::new(), Vec::new()));
}

#[test]
fn odd_sections_are_refused() {
    for block in [
        &[][..],
        &[0],
        // A dynamic table is asked for.
        &[1, 0],
        &[0, 0x80],
        &[0, 0, 0x80],
        &[0, 0, 0xbf, 0x00],
        &[0, 0, 0x41, 1, b'x'],
        &[0, 0, 0x10],
        &[0, 0, 0x00, 1, b'x'],
        // The base does not end.
        &[0, 0x7f, 0x80],
        // Behind the static table.
        &[0, 0, 0xff, 0x24],
        &[0, 0, 0x5f, 0x54, 0],
        // Strings that do not end, or are no Huffman code.
        &[0, 0, 0x25, b'a'],
        &[0, 0, 0x21, b'a'],
        &[0, 0, 0x21, b'a', 5, b'b'],
        &[0, 0, 0x21, b'a', 0x81, 0xff],
        &[0, 0, 0x29, 0x18, 0],
        &[0, 0, 0x27, 0xff],
        &[0, 0, 0x27, 0xff, 0xff, 0xff, 0xff, 0xff, 0xff, 0xff, 0xff, 0xff, 0xff, 0x7f],
        &[0, 0, 0xff, 0xff, 0xff, 0xff, 0xff, 0xff, 0xff, 0xff, 0xff, 0xff, 0xff, 0x7f],
    ] {
        assert_eq!(decode_section(block), Err(Error::InvalidState));
    }
    assert_eq!(decode_section(&[0, 5]), Ok(Vec::new()));
    assert_eq!(decode_section(&[0, 0x7f, 0xff, 0x01]), Ok(Vec::new()));
    assert_eq!(decode_section(&[0, 0]), Ok(Vec::new()));
    // A field that is never to be indexed is a field like any other.
    let list = decode_section(&[0, 0, 0x31, b'a', 1, b'b']).unwrap();
    assert_eq!(list, vec![(b"a".to_vec(), b"b".to_vec())]);
}

fn one_field(block: &[u8]) -> (String, String) {
    let list = decode_section(block).unwrap();
    assert_eq!(list.len(), 1);
    (
        String::from_utf8(list[0].0.clone()).unwrap(),
        String::from_utf8(list[0].1.clone()).unwrap(),
    )
}

#[test]
fn static_entries_and_names() {
    assert_eq!(one_field(&[0, 0, 0xc0]), (":authority".to_string(), String::new()));
    assert_eq!(one_field(&[0, 0, 0xc1]), (":path".to_string(), "/".to_string()));
    assert_eq!(one_field(&[0, 0, 0xd1]), (":method".to_string(), "GET".to_string()));
    assert_eq!(one_field(&[0, 0, 0xd7]), (":scheme".to_string(), "https".to_string()));
    assert_eq!(one_field(&[0, 0, 0xd9]), (":status".to_string(), "200".to_string()));
    assert_eq!(
        one_field(&[0, 0, 0xff, 0x00]),
        (":status".to_string(), "100".to_string())
    );
    assert_eq!(
        one_field(&[0, 0, 0xff, 0x23]),
        ("x-frame-options".to_string(), "sameorigin".to_string())
    );
    let mut block = vec![0, 0, 0x51, 0x0b];
    block.extend_from_slice(b"/index.html");
    assert_eq!(one_field(&block), (":path".to_string(), "/index.html".to_string()));
    assert_eq!(
        one_field(&[0, 0, 0x5f, 0x50, 4, b'c', b'u', b'r', b'l']),
        ("user-agent".to_string(), "curl".to_string())
    );
    assert!(lookup(98).is_some());
    assert!(lookup(99).is_none());
}

#[test]
fn huffman_coded_strings() {
    let coded: [(&[u8], &str); 8] = [
        (
            &[0xf1, 0xe3, 0xc2, 0xe5, 0xf2, 0x3a, 0x6b, 0xa0, 0xab, 0x90, 0xf4, 0xff],
            "www.example.com",
        ),
        (&[0xa8, 0xeb, 0x10, 0x64, 0x9c, 0xbf], "no-cache"),
        (&[0x25, 0xa8, 0x49, 0xe9, 0x5b, 0xa9, 0x7d, 0x7f], "custom-key"),
        (&[0x25, 0xa8, 0x49, 0xe9, 0x5b, 0xb8, 0xe8, 0xb4, 0xbf], "custom-value"),
        (
            &[
                0xd0, 0x7a, 0xbe, 0x94, 0x10, 0x54, 0xd4, 0x44, 0xa8, 0x20, 0x05, 0x95, 0x04, 0x0b,
                0x81, 0x66, 0xe0, 0x82, 0xa6, 0x2d, 0x1b, 0xff,
            ],
            "Mon, 21 Oct 2013 20:13:21 GMT",
        ),
        (&[0x64, 0x02], "302"),
        (&[0x1f], "a"),
        (&[], ""),
    ];
    for (bytes, text) in coded {
        assert_eq!(huffman_decode(bytes), Some(text.as_bytes().to_vec()));
    }
    // The symbols 0, 10 and 255.
    assert_eq!(huffman_decode(&[0xff, 0xc7]), Some(vec![0]));
    assert_eq!(huffman_decode(&[0xff, 0xff, 0xff, 0xf3]), Some(vec![10]));
    assert_eq!(huffman_decode(&[0xff, 0xff, 0xfb, 0xbf]), Some(vec![255]));
    // Padding with zeros, a whole byte of padding, and the mark of the end.
    assert_eq!(huffman_decode(&[0x18]), None);
    assert_eq!(huffman_decode(&[0x1f, 0xff]), None);
    assert_eq!(huffman_decode(&[0xff, 0xff, 0xff, 0xff]), None);

    let mut block = vec![0, 0, 0x50, 0x8c];
    block.extend_from_slice(coded[0].0);
    assert_eq!(
        one_field(&block),
        (":authority".to_string(), "www.example.com".to_string())
    );
    let mut block = vec![0, 0, 0x2f, 0x01];
    block.extend_from_slice(coded[2].0);
    block.push(0x89);
    block.extend_from_slice(coded[3].0);
    assert_eq!(
        one_field(&block),
        ("custom-key".to_string(), "custom-value".to_string())
    );
}

#[test]
fn body_parts_are_read_whatever_the_buffer() {
    for size in [1usize, 2, 3, 64] {
        let mut scratch = [0u8; 64];
        let mut pool = HandshakePool::new();
        let mut client = make_client(&mut pool);
        let mut server = make_server(&mut pool);
        let id = client.send_request("GET", "/", "h", &[], true).unwrap();
        to_server(&mut client, &mut server);
        while server.poll_event(&mut scratch).is_some() {}
        server.send_response(id, 200, &[], false).unwrap();
        assert_eq!(server.send_body(id, b"first ", false).unwrap(), 6);
        assert_eq!(server.send_body(id, b"", false).unwrap(), 0);
        assert_eq!(server.send_body(id, b"second", true).unwrap(), 6);
        while !server.inner.sio_bufs.send_queue.is_empty() {
            let e = server.inner.sio_bufs.send_queue.remove(0);
            client.stream_received(e.stream_id, &e.data, e.fin);
        }
        while client.poll_event(&mut scratch).is_some() {}
        let mut got = Vec::new();
        loop {
            let mut buf = vec![0u8; size];
            let (n, fin) = client.recv_body(id, &mut buf).unwrap();
            assert!(n <= size);
            got.extend_from_slice(&buf[..n]);
            assert_eq!(fin, got.len() == 12);
            if fin {
                break;
            }
        }
        assert_eq!(got, b"first second");
    }
}

#[test]
fn large_body_in_many_frames_arrives_intact() {
    let mut scratch = [0u8; 7];
    let mut pool = HandshakePool::new();
    let mut client = make_client(&mut pool);
    let mut server = make_server(&mut pool);
    let id = client.send_request("GET", "/", "h", &[], true).unwrap();
    to_server(&mut client, &mut server);
    while server.poll_event(&mut scratch).is_some() {}
    server
        .send_response(id, 200, &[(b"content-length", b"5000")], false)
        .unwrap();
    let body: Vec<u8> = (0..5000u32).map(|i| (i * 7 % 251) as u8).collect();
    let mut sent = 0;
    let mut got = Vec::new();
    let mut fin = false;
    let mut headers = 0;
    let mut piece = 1;
    while !fin {
        if sent < body.len() {
            let end = (sent + 700).min(body.len());
            if let Ok(n) = server.send_body(id, &body[sent..end], end == body.len()) {
                sent += n;
            }
        }
        while !server.inner.sio_bufs.send_queue.is_empty() {
            let e = server.inner.sio_bufs.send_queue.remove(0);
            let mut p = 0;
            while p < e.data.len() {
                let q = (p + piece).min(e.data.len());
                client.stream_received(e.stream_id, &e.data[p..q], e.fin && q == e.data.len());
                p = q;
                piece = piece % 13 + 1;
                while let Some(ev) = client.poll_event(&mut scratch) {
                    if ev == H3Event::Headers(id) {
                        headers += 1;
                    }
                }
                let mut buf = [0u8; 11];
                let (n, f) = client.recv_body(id, &mut buf).unwrap();
                got.extend_from_slice(&buf[..n]);
                fin = fin || f;
            }
        }
        let mut buf = [0u8; 64];
        let (n, f) = client.recv_body(id, &mut buf).unwrap();
        got.extend_from_slice(&buf[..n]);
        fin = fin || f;
    }
    assert_eq!(headers, 1);
    assert_eq!(got, body);
    let list = client.recv_headers(id).unwrap();
    assert_eq!(list.len(), 2);
    assert_eq!(field(&list, 0), (&b":status"[..], &b"200"[..]));
    assert_eq!(field(&list, 1), (&b"content-length"[..], &b"5000"[..]));
}
