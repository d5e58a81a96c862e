use milli_http::buf::Buf;
use milli_http::crypto::ed25519::{build_ed25519_cert_der, ed25519_public_key_from_seed};
use milli_http::crypto::{Aead, CryptoProvider, HeaderProtection, Hkdf, Level};
use milli_http::error::Error;
use milli_http::tcp_tls::connection::{local_record_size_limit, TlsConnection, TlsEvent};
use milli_http::tcp_tls::io::TlsIoBufs;
use milli_http::tcp_tls::record::{
    decode_record_header, encode_record_header, find_inner_content_type, handshake_msg_end,
    ContentType, RECORD_HEADER_LEN,
};
use milli_http::tcp_tls::{TlsBufKit, TlsParts};
use milli_http::tls::{DerivedKeys, TlsSession};

/// Mixes bytes into a running value.
fn mix(mut h: u64, data: &[u8]) -> u64 {
    for b in data {
        h = (h ^ *b as u64).wrapping_mul(0x100_0000_01b3).rotate_left(7);
    }
    h
}

/// A cipher for tests: a keyed stream and a keyed checksum.
struct ToyAead {
    key: Vec<u8>,
}

impl ToyAead {
    fn stream(&self, nonce: &[u8; 12], i: usize) -> u8 {
        (mix(mix(7, &self.key), nonce).wrapping_add(i as u64 * 0x9e37) >> 3) as u8
    }

    fn tag(&self, nonce: &[u8; 12], aad: &[u8], plain: &[u8]) -> [u8; 16] {
        let a = mix(mix(mix(mix(1, &self.key), nonce), aad), plain).to_be_bytes();
        let b = mix(mix(mix(mix(2, &self.key), nonce), aad), plain).to_be_bytes();
        let mut t = [0u8; 16];
        t[..8].copy_from_slice(&a);
        t[8..].copy_from_slice(&b);
        t
    }
}

impl Aead for ToyAead {
    fn seal_in_place(
        &self,
        nonce: &[u8; 12],
        aad: &[u8],
        buf: &mut [u8],
        payload_len: usize,
    ) -> Result<usize, Error> {
        let total = payload_len + 16;
        if buf.len() < total {
            return Err(Error::BufferTooSmall { needed: total });
        }
        let tag = self.tag(nonce, aad, &buf[..payload_len]);
        for i in 0..payload_len {
            buf[i] ^= self.stream(nonce, i);
        }
        buf[payload_len..total].copy_from_slice(&tag);
        Ok(total)
    }

    fn open_in_place(
        &self,
        nonce: &[u8; 12],
        aad: &[u8],
        buf: &mut [u8],
        ciphertext_len: usize,
    ) -> Result<usize, Error> {
        if ciphertext_len < 16 {
            return Err(Error::Crypto);
        }
        let n = ciphertext_len - 16;
        let mut plain = buf[..n].to_vec();
        for (i, b) in plain.iter_mut().enumerate() {
            *b ^= self.stream(nonce, i);
        }
        if self.tag(nonce, aad, &plain) != buf[n..ciphertext_len] {
            return Err(Error::Crypto);
        }
        buf[..n].copy_from_slice(&plain);
        Ok(n)
    }
}

/// Header protection for tests.
struct ToyMask {
    key: u8,
}

impl HeaderProtection for ToyMask {
    fn mask(&self, sample: &[u8; 16]) -> [u8; 5] {
        let h = mix(self.key as u64, sample).to_be_bytes();
        [h[0], h[1], h[2], h[3], h[4]]
    }
}

/// Key expansion for tests.
#[derive(Default)]
struct ToyHkdf;

impl Hkdf for ToyHkdf {
    fn expand(&self, prk: &[u8], info: &[u8], okm: &mut [u8]) -> Result<(), Error> {
        let h = mix(mix(11, prk), info);
        for (i, b) in okm.iter_mut().enumerate() {
            *b = (mix(h, &[i as u8]) >> 11) as u8;
        }
        Ok(())
    }
}

struct Toy;

impl CryptoProvider for Toy {
    type Aead = ToyAead;
    type HeaderProtection = ToyMask;
    type Hkdf = ToyHkdf;
    type InitialAead = ToyAead;
    type InitialHeaderProtection = ToyMask;
    type Tls = ToyTls;

    fn key_len(&self) -> usize {
        16
    }

    fn aead(&self, key: &[u8]) -> Result<ToyAead, Error> {
        Ok(ToyAead { key: key.to_vec() })
    }
}

/// A handshake engine for tests: the messages of TLS 1.3 in their order, with
/// traffic secrets that both sides know.
struct ToyTls {
    server: bool,
    cert: Vec<u8>,
    limit: u16,
    peer_limit: Option<u16>,
    alpn: Option<Vec<u8>>,
    hello_sent: bool,
    output: Vec<(Level, Vec<u8>, bool)>,
    keys: Vec<DerivedKeys>,
    complete: bool,
}

fn message(kind: u8, body: &[u8]) -> Vec<u8> {
    let mut m = vec![kind, 0, (body.len() >> 8) as u8, body.len() as u8];
    m.extend_from_slice(body);
    m
}

impl ToyTls {
    fn new(server: bool, cert: Vec<u8>) -> Self {
        ToyTls {
            server,
            cert,
            limit: 16385,
            peer_limit: None,
            alpn: None,
            hello_sent: server,
            output: Vec::new(),
            keys: Vec::new(),
            complete: false,
        }
    }

    fn secrets(&self, level: Level) -> DerivedKeys {
        let base = if level == Level::Handshake { 0x10 } else { 0x20 };
        let client = [base; 48];
        let server = [base + 1; 48];
        let (send_secret, recv_secret) =
            if self.server { (server, client) } else { (client, server) };
        DerivedKeys { level, send_secret, recv_secret, secret_len: 32 }
    }

    fn read_message(&mut self, level: Level, kind: u8, body: &[u8]) -> Result<(), Error> {
        match (self.server, level, kind) {
            (true, Level::Initial, 1) => {
                self.peer_limit = Some(u16::from_be_bytes([body[0], body[1]]));
                self.alpn = Some(body[2..].to_vec());
                let mut flight = message(8, &[&self.limit.to_be_bytes()[..], &body[2..]].concat());
                flight.extend(message(11, &self.cert));
                flight.extend(message(15, &[0x5a; 64]));
                flight.extend(message(20, &[0x33; 32]));
                self.output.push((Level::Initial, message(2, &[0x77; 40]), false));
                self.output.push((Level::Handshake, flight, false));
                let hs = self.secrets(Level::Handshake);
                let app = self.secrets(Level::Application);
                self.keys.push(hs);
                self.keys.push(app);
                Ok(())
            }
            (false, Level::Initial, 2) => {
                let hs = self.secrets(Level::Handshake);
                self.keys.push(hs);
                Ok(())
            }
            (false, Level::Handshake, 8) => {
                self.peer_limit = Some(u16::from_be_bytes([body[0], body[1]]));
                self.alpn = Some(body[2..].to_vec());
                Ok(())
            }
            (false, Level::Handshake, 11) | (false, Level::Handshake, 15) => Ok(()),
            (false, Level::Handshake, 20) => {
                let app = self.secrets(Level::Application);
                self.keys.push(app);
                self.output.push((Level::Handshake, message(20, &[0x44; 32]), true));
                Ok(())
            }
            (true, Level::Handshake, 20) => {
                self.complete = true;
                Ok(())
            }
            _ => Err(Error::Tls),
        }
    }
}

impl TlsSession for ToyTls {
    type ClientConfig = ();
    type ServerConfig = Vec<u8>;

    fn new_tcp_client(_config: (), _secret: [u8; 32], _random: [u8; 32]) -> Self {
        ToyTls::new(false, Vec::new())
    }

    fn new_tcp_server(config: Vec<u8>, _secret: [u8; 32], _random: [u8; 32]) -> Self {
        ToyTls::new(true, config)
    }

    fn read_handshake(&mut self, level: Level, data: &[u8]) -> Result<(), Error> {
        let mut off = 0;
        while off < data.len() {
            if data.len() - off < 4 {
                return Err(Error::Tls);
            }
            let len = data[off + 2] as usize * 256 + data[off + 3] as usize;
            if data.len() - off - 4 < len {
                return Err(Error::Tls);
            }
            self.read_message(level, data[off], &data[off + 4..off + 4 + len])?;
            off += 4 + len;
        }
        Ok(())
    }

    fn write_handshake(&mut self, buf: &mut [u8]) -> Result<(usize, Level), Error> {
        if !self.hello_sent {
            self.hello_sent = true;
            let hello = message(1, &[&self.limit.to_be_bytes()[..], b"h2"].concat());
            self.output.push((Level::Initial, hello, false));
        }
        if self.output.is_empty() {
            return Ok((0, Level::Initial));
        }
        let (level, data, last) = self.output.remove(0);
        if data.len() > buf.len() {
            return Err(Error::BufferTooSmall { needed: data.len() });
        }
        buf[..data.len()].copy_from_slice(&data);
        if last {
            self.complete = true;
        }
        Ok((data.len(), level))
    }

    fn derived_keys(&mut self) -> Option<DerivedKeys> {
        if self.keys.is_empty() {
            None
        } else {
            Some(self.keys.remove(0))
        }
    }

    fn set_local_record_size_limit(&mut self, limit: u16) {
        self.limit = limit;
    }

    fn shrink_post_handshake(&mut self) {
        self.cert = Vec::new();
    }

    fn is_complete(&self) -> bool {
        self.complete
    }

    fn alpn(&self) -> Option<&[u8]> {
        self.alpn.as_deref()
    }

    fn peer_record_size_limit(&self) -> Option<u16> {
        self.peer_limit
    }
}

type TestConn = TlsConnection<Toy>;
type TestIo = TlsIoBufs<32768>;

const TEST_SEED: [u8; 32] = [0x01u8; 32];

fn test_cert_der() -> Vec<u8> {
    let pk = ed25519_public_key_from_seed(&TEST_SEED);
    let mut buf = [0u8; 512];
    let len = build_ed25519_cert_der(&pk, &mut buf).unwrap();
    buf[..len].to_vec()
}

fn make_client() -> TestConn {
    TestConn::new_client(Toy, (), [0xAA; 32], [0xBB; 32])
}

fn make_server(cert: Vec<u8>) -> TestConn {
    TestConn::new_server(Toy, cert, [0xCC; 32], [0xDD; 32])
}

fn transfer<const A: usize, const B: usize>(
    src: &mut TestConn,
    sio: &mut TlsIoBufs<A>,
    dst: &mut TestConn,
    dio: &mut TlsIoBufs<B>,
) -> bool {
    let mut any = false;
    let mut buf = [0u8; 32768];
    while let Some(data) = src.poll_output(&mut sio.as_io(), &mut buf) {
        let copy = data.to_vec();
        dst.feed_data(&mut dio.as_io(), &copy).unwrap();
        any = true;
    }
    any
}

fn handshake<const A: usize, const B: usize>(
    client: &mut TestConn,
    cio: &mut TlsIoBufs<A>,
    server: &mut TestConn,
    sio: &mut TlsIoBufs<B>,
) {
    for _ in 0..20 {
        let a = transfer(client, cio, server, sio);
        let b = transfer(server, sio, client, cio);
        if !a && !b {
            break;
        }
    }
}

fn drain_events(c: &mut TestConn) -> Vec<TlsEvent> {
    let mut events = Vec::new();
    while let Some(ev) = c.poll_event() {
        events.push(ev);
    }
    events
}

#[test]
fn handshake_completes() {
    let cert = test_cert_der();
    let mut client = make_client();
    let mut cio = TestIo::new();
    let mut server = make_server(cert);
    let mut sio = TestIo::new();

    assert!(!client.is_active());
    assert!(!server.is_active());

    handshake(&mut client, &mut cio, &mut server, &mut sio);

    let client_events = drain_events(&mut client);
    let server_events = drain_events(&mut server);

    assert!(
        client_events.contains(&TlsEvent::HandshakeComplete),
        "client should emit HandshakeComplete, got: {:?}",
        client_events,
    );
    assert!(
        server_events.contains(&TlsEvent::HandshakeComplete),
        "server should emit HandshakeComplete, got: {:?}",
        server_events,
    );

    assert!(client.is_active());
    assert!(server.is_active());
}

#[test]
fn app_data_roundtrip() {
    let cert = test_cert_der();
    let mut client = make_client();
    let mut cio = TestIo::new();
    let mut server = make_server(cert);
    let mut sio = TestIo::new();

    handshake(&mut client, &mut cio, &mut server, &mut sio);
    drain_events(&mut client);
    drain_events(&mut server);

    client
        .send_app_data(&mut cio.as_io(), b"Hello from client")
        .unwrap();
    transfer(&mut client, &mut cio, &mut server, &mut sio);

    let server_events = drain_events(&mut server);
    assert!(server_events.contains(&TlsEvent::AppData));

    let mut recv_buf = [0u8; 256];
    let n = server
        .recv_app_data(&mut sio.as_io(), &mut recv_buf)
        .unwrap();
    assert_eq!(&recv_buf[..n], b"Hello from client");

    server
        .send_app_data(&mut sio.as_io(), b"Hello from server")
        .unwrap();
    transfer(&mut server, &mut sio, &mut client, &mut cio);

    let client_events = drain_events(&mut client);
    assert!(client_events.contains(&TlsEvent::AppData));

    let n = client
        .recv_app_data(&mut cio.as_io(), &mut recv_buf)
        .unwrap();
    assert_eq!(&recv_buf[..n], b"Hello from server");
}

#[test]
fn alpn_negotiation() {
    let cert = test_cert_der();
    let mut client = make_client();
    let mut cio = TestIo::new();
    let mut server = make_server(cert);
    let mut sio = TestIo::new();

    handshake(&mut client, &mut cio, &mut server, &mut sio);
    drain_events(&mut client);
    drain_events(&mut server);

    assert_eq!(client.alpn(), Some(b"h2".as_slice()));
    assert_eq!(server.alpn(), Some(b"h2".as_slice()));
}

#[test]
fn send_before_handshake_fails() {
    let cert = test_cert_der();
    let client = make_client();
    let _server = make_server(cert);

    assert!(!client.is_active());
}

#[test]
fn graceful_close() {
    let cert = test_cert_der();
    let mut client = make_client();
    let mut cio = TestIo::new();
    let mut server = make_server(cert);
    let mut sio = TestIo::new();

    handshake(&mut client, &mut cio, &mut server, &mut sio);
    drain_events(&mut client);
    drain_events(&mut server);

    client.close(&mut cio.as_io()).unwrap();
    assert!(client.is_closed());

    transfer(&mut client, &mut cio, &mut server, &mut sio);

    let server_events = drain_events(&mut server);
    assert!(
        server_events.contains(&TlsEvent::PeerClosed),
        "server should see PeerClosed, got: {:?}",
        server_events,
    );
}

#[test]
fn multiple_app_data_messages() {
    let cert = test_cert_der();
    let mut client = make_client();
    let mut cio = TestIo::new();
    let mut server = make_server(cert);
    let mut sio = TestIo::new();

    handshake(&mut client, &mut cio, &mut server, &mut sio);
    drain_events(&mut client);
    drain_events(&mut server);

    for i in 0..5u8 {
        let msg = [b'A' + i; 100];
        client.send_app_data(&mut cio.as_io(), &msg).unwrap();
    }

    transfer(&mut client, &mut cio, &mut server, &mut sio);

    let mut recv_buf = [0u8; 1024];
    let n = server
        .recv_app_data(&mut sio.as_io(), &mut recv_buf)
        .unwrap();
    assert_eq!(n, 500);
}

#[test]
fn send_app_data_before_handshake_returns_error() {
    let cert = test_cert_der();
    let mut client = make_client();
    let mut cio = TestIo::new();
    let _server = make_server(cert);

    let result = client.send_app_data(&mut cio.as_io(), b"too early");
    assert!(result.is_err());
}

#[test]
fn recv_app_data_when_empty_returns_would_block() {
    let cert = test_cert_der();
    let mut client = make_client();
    let mut cio = TestIo::new();
    let mut server = make_server(cert);
    let mut sio = TestIo::new();

    handshake(&mut client, &mut cio, &mut server, &mut sio);
    drain_events(&mut client);
    drain_events(&mut server);

    let mut buf = [0u8; 64];
    let result = server.recv_app_data(&mut sio.as_io(), &mut buf);
    assert!(result.is_err());
}

#[test]
fn fragmented_feed_data() {
    let cert = test_cert_der();
    let mut client = make_client();
    let mut cio = TestIo::new();
    let mut server = make_server(cert);
    let mut sio = TestIo::new();

    for _ in 0..20 {
        let mut buf = [0u8; 32768];
        while let Some(data) = client.poll_output(&mut cio.as_io(), &mut buf) {
            let copy = data.to_vec();
            for byte in &copy {
                server
                    .feed_data(&mut sio.as_io(), core::slice::from_ref(byte))
                    .unwrap();
            }
        }
        let mut buf2 = [0u8; 32768];
        while let Some(data) = server.poll_output(&mut sio.as_io(), &mut buf2) {
            let copy = data.to_vec();
            for byte in &copy {
                client
                    .feed_data(&mut cio.as_io(), core::slice::from_ref(byte))
                    .unwrap();
            }
        }
        if client.is_active() && server.is_active() {
            break;
        }
    }

    assert!(
        client.is_active(),
        "handshake should complete with fragmented data"
    );
    assert!(server.is_active());

    drain_events(&mut client);
    drain_events(&mut server);

    client
        .send_app_data(&mut cio.as_io(), b"fragmented test")
        .unwrap();
    let mut buf = [0u8; 32768];
    while let Some(data) = client.poll_output(&mut cio.as_io(), &mut buf) {
        let copy = data.to_vec();
        for byte in &copy {
            server
                .feed_data(&mut sio.as_io(), core::slice::from_ref(byte))
                .unwrap();
        }
    }

    let events = drain_events(&mut server);
    assert!(events.contains(&TlsEvent::AppData));

    let mut recv = [0u8; 64];
    let n = server.recv_app_data(&mut sio.as_io(), &mut recv).unwrap();
    assert_eq!(&recv[..n], b"fragmented test");
}

#[test]
fn server_initiated_close() {
    let cert = test_cert_der();
    let mut client = make_client();
    let mut cio = TestIo::new();
    let mut server = make_server(cert);
    let mut sio = TestIo::new();

    handshake(&mut client, &mut cio, &mut server, &mut sio);
    drain_events(&mut client);
    drain_events(&mut server);

    server.close(&mut sio.as_io()).unwrap();
    assert!(server.is_closed());

    transfer(&mut server, &mut sio, &mut client, &mut cio);

    let client_events = drain_events(&mut client);
    assert!(
        client_events.contains(&TlsEvent::PeerClosed),
        "client should see PeerClosed, got: {:?}",
        client_events,
    );
}

#[test]
fn large_payload_near_record_limit() {
    let cert = test_cert_der();
    let mut client = make_client();
    let mut cio = TestIo::new();
    let mut server = make_server(cert);
    let mut sio = TestIo::new();

    handshake(&mut client, &mut cio, &mut server, &mut sio);
    drain_events(&mut client);
    drain_events(&mut server);

    let big_data = [0x42u8; 16000];
    client.send_app_data(&mut cio.as_io(), &big_data).unwrap();
    transfer(&mut client, &mut cio, &mut server, &mut sio);

    let events = drain_events(&mut server);
    assert!(events.contains(&TlsEvent::AppData));

    let mut recv = [0u8; 16384];
    let n = server.recv_app_data(&mut sio.as_io(), &mut recv).unwrap();
    assert_eq!(n, 16000);
    assert!(recv[..n].iter().all(|&b| b == 0x42));
}

#[test]
fn data_after_close_ignored() {
    let cert = test_cert_der();
    let mut client = make_client();
    let mut cio = TestIo::new();
    let mut server = make_server(cert);
    let mut sio = TestIo::new();

    handshake(&mut client, &mut cio, &mut server, &mut sio);
    drain_events(&mut client);
    drain_events(&mut server);

    client.close(&mut cio.as_io()).unwrap();
    transfer(&mut client, &mut cio, &mut server, &mut sio);
    drain_events(&mut server);

    assert!(client.is_closed());
    client.close(&mut cio.as_io()).unwrap();
}

#[test]
fn find_inner_content_type_basic() {
    let data = [0x41, 0x42, 0x43, ContentType::ApplicationData.to_byte()];
    let (len, ct) = find_inner_content_type(&data).unwrap();
    assert_eq!(len, 3);
    assert_eq!(ct, ContentType::ApplicationData);
}

#[test]
fn find_inner_content_type_with_padding() {
    let data = [0x41, ContentType::Handshake.to_byte(), 0x00, 0x00];
    let (len, ct) = find_inner_content_type(&data).unwrap();
    assert_eq!(len, 1);
    assert_eq!(ct, ContentType::Handshake);
}

#[test]
fn find_inner_content_type_empty() {
    let data = [0u8; 4];
    assert!(find_inner_content_type(&data).is_err());
}

#[test]
fn malformed_record_invalid_content_type() {
    let cert = test_cert_der();
    let mut client = make_client();
    let mut cio = TestIo::new();
    let _server = make_server(cert);

    let mut buf = [0u8; 32768];
    while let Some(_) = client.poll_output(&mut cio.as_io(), &mut buf) {}

    let result = client.feed_data(&mut cio.as_io(), &[0xFF, 0x03, 0x03, 0x00, 0x01, 0x00]);
    assert_eq!(result, Err(Error::Tls));
}

#[test]
fn malformed_record_truncated_header() {
    let cert = test_cert_der();
    let mut client = make_client();
    let mut cio = TestIo::new();
    let _server = make_server(cert);

    let mut buf = [0u8; 32768];
    while let Some(_) = client.poll_output(&mut cio.as_io(), &mut buf) {}

    let result = client.feed_data(&mut cio.as_io(), &[0x16, 0x03, 0x03]);
    assert!(result.is_ok(), "partial header should be buffered");

    let result = client.feed_data(&mut cio.as_io(), &[0x00, 0x01, 0x00]);
    assert!(result.is_err(), "malformed handshake record should error");
}

#[test]
fn send_after_close_fails() {
    let cert = test_cert_der();
    let mut client = make_client();
    let mut cio = TestIo::new();
    let mut server = make_server(cert);
    let mut sio = TestIo::new();

    handshake(&mut client, &mut cio, &mut server, &mut sio);
    drain_events(&mut client);
    drain_events(&mut server);

    client.close(&mut cio.as_io()).unwrap();

    let result = client.send_app_data(&mut cio.as_io(), b"hello");
    assert_eq!(result, Err(Error::InvalidState));
}

/// RFC 8449: a client with small buffers advertises a record_size_limit
/// in its ClientHello, and the server must cap every application-data
/// record it sends to that limit.
#[test]
fn server_caps_app_records_to_client_record_size_limit() {
    const CLIENT_BUF: usize = 2048;
    // What `local_record_size_limit::<CLIENT_BUF>()` advertises.
    let limit = CLIENT_BUF - 64;

    let cert = test_cert_der();
    let mut client = make_client();
    let mut cio = TlsIoBufs::<CLIENT_BUF>::new();
    let mut server = make_server(cert);
    let mut sio = TestIo::new();

    handshake(&mut client, &mut cio, &mut server, &mut sio);
    assert!(client.is_active());
    assert!(server.is_active());
    drain_events(&mut client);
    drain_events(&mut server);

    // Server sends more data than fits in one capped record.
    let payload: Vec<u8> = (0..8000u32).map(|i| (i % 251) as u8).collect();
    server.send_app_data(&mut sio.as_io(), &payload).unwrap();

    let mut raw = Vec::new();
    let mut buf = [0u8; 32768];
    while let Some(data) = server.poll_output(&mut sio.as_io(), &mut buf) {
        raw.extend_from_slice(data);
    }

    // Walk the raw record stream: every record payload must respect the
    // limit (plaintext <= limit - 1, so ciphertext <= limit + 16).
    let mut off = 0;
    let mut records = 0;
    let mut received = Vec::new();
    while off + RECORD_HEADER_LEN <= raw.len() {
        let rec_len = u16::from_be_bytes([raw[off + 3], raw[off + 4]]) as usize;
        let total = RECORD_HEADER_LEN + rec_len;
        assert!(
            rec_len <= limit + 16,
            "record payload {} exceeds peer limit {} (+16 AEAD tag)",
            rec_len,
            limit
        );
        // Feed one record at a time so the client's small buffers keep up.
        client
            .feed_data(&mut cio.as_io(), &raw[off..off + total])
            .unwrap();
        let mut rbuf = [0u8; CLIENT_BUF];
        while let Ok(n) = client.recv_app_data(&mut cio.as_io(), &mut rbuf) {
            received.extend_from_slice(&rbuf[..n]);
        }
        records += 1;
        off += total;
    }
    assert_eq!(off, raw.len(), "trailing partial record in stream");
    assert!(
        records >= 5,
        "8000 bytes under a {} limit should span >= 5 records, got {}",
        limit,
        records
    );
    assert_eq!(received, payload);
}

/// RFC 8449: the limit also applies to records protected with handshake
/// keys, so the server must fragment its EE+Cert+CV+Finished flight when
/// the client's limit is smaller than the flight (~360 bytes with the
/// test Ed25519 cert). Without fragmentation this handshake cannot
/// complete - the single flight record would exceed the client's entire
/// receive buffer. (The limit here is still large enough that record
/// boundaries fall on message boundaries, which our minimal client
/// requires; real peers also reassemble messages split across records.)
#[test]
fn server_fragments_handshake_flight_to_client_record_size_limit() {
    const CLIENT_BUF: usize = 320;
    let limit = CLIENT_BUF - 64; // 256

    let cert = test_cert_der();
    let mut client = make_client();
    let mut cio = TlsIoBufs::<CLIENT_BUF>::new();
    let mut server = make_server(cert);
    let mut sio = TestIo::new();

    // Drive the handshake while checking every server record against the
    // client's limit. Feed in small slices so the client's tiny recv_buf
    // never has to hold more than one (partial) record at a time.
    for _ in 0..40 {
        let mut any = false;

        let mut buf = [0u8; 32768];
        while let Some(data) = client.poll_output(&mut cio.as_io(), &mut buf) {
            let copy = data.to_vec();
            server.feed_data(&mut sio.as_io(), &copy).unwrap();
            any = true;
        }

        let mut buf2 = [0u8; 32768];
        let mut server_out = Vec::new();
        while let Some(data) = server.poll_output(&mut sio.as_io(), &mut buf2) {
            server_out.extend_from_slice(data);
            any = true;
        }
        // Verify record sizes on the server's encrypted records
        // (ApplicationData outer type, 0x17).
        let mut off = 0;
        while off + RECORD_HEADER_LEN <= server_out.len() {
            let ct = server_out[off];
            let rec_len =
                u16::from_be_bytes([server_out[off + 3], server_out[off + 4]]) as usize;
            if ct == ContentType::ApplicationData.to_byte() {
                assert!(
                    rec_len <= limit + 16,
                    "protected record payload {} exceeds client limit {}",
                    rec_len,
                    limit
                );
            }
            off += RECORD_HEADER_LEN + rec_len;
        }
        for slice in server_out.chunks(16) {
            client.feed_data(&mut cio.as_io(), slice).unwrap();
        }

        if !any && client.is_active() && server.is_active() {
            break;
        }
    }

    assert!(client.is_active(), "handshake should complete");
    assert!(server.is_active());

    // App data still round-trips both ways under the small limit.
    drain_events(&mut client);
    drain_events(&mut server);
    client
        .send_app_data(&mut cio.as_io(), b"small-limit ping")
        .unwrap();
    transfer(&mut client, &mut cio, &mut server, &mut sio);
    let mut rbuf = [0u8; 64];
    let n = server.recv_app_data(&mut sio.as_io(), &mut rbuf).unwrap();
    assert_eq!(&rbuf[..n], b"small-limit ping");
}

/// In-place decryption parks a partial trailing record as a hidden
/// ciphertext tail behind the readable plaintext. Draining part of the
/// plaintext while the partial record is parked, then delivering the rest
/// of the record, must yield both messages intact.
#[test]
fn partial_record_parks_ciphertext_across_feeds_and_drains() {
    let cert = test_cert_der();
    let mut client = make_client();
    let mut cio = TestIo::new();
    let mut server = make_server(cert);
    let mut sio = TestIo::new();

    handshake(&mut client, &mut cio, &mut server, &mut sio);
    drain_events(&mut client);
    drain_events(&mut server);

    let mut buf = [0u8; 32768];
    server
        .send_app_data(&mut sio.as_io(), b"first message")
        .unwrap();
    let mut wire1 = Vec::new();
    while let Some(d) = server.poll_output(&mut sio.as_io(), &mut buf) {
        wire1.extend_from_slice(d);
    }
    server
        .send_app_data(&mut sio.as_io(), b"second message")
        .unwrap();
    let mut wire2 = Vec::new();
    while let Some(d) = server.poll_output(&mut sio.as_io(), &mut buf) {
        wire2.extend_from_slice(d);
    }

    // Deliver message 1's record plus only half of message 2's record.
    let split = wire2.len() / 2;
    let mut feed = wire1.clone();
    feed.extend_from_slice(&wire2[..split]);
    client.feed_data(&mut cio.as_io(), &feed).unwrap();

    // Drain part of the plaintext while the partial record is parked
    // behind it (exercises truncate-relocating-the-hidden-tail).
    let mut r5 = [0u8; 5];
    let n = client.recv_app_data(&mut cio.as_io(), &mut r5).unwrap();
    assert_eq!(&r5[..n], b"first");

    // Deliver the rest of message 2's record; everything must come out.
    client.feed_data(&mut cio.as_io(), &wire2[split..]).unwrap();
    let mut out = Vec::new();
    let mut rb = [0u8; 64];
    while let Ok(n) = client.recv_app_data(&mut cio.as_io(), &mut rb) {
        out.extend_from_slice(&rb[..n]);
    }
    assert_eq!(out, b" messagesecond message");
}

/// A close_notify alert arriving in the same TCP segment as application
/// data takes the early-return path out of record processing. The already
/// decrypted plaintext must remain readable afterwards.
#[test]
fn app_data_readable_after_close_notify_in_same_feed() {
    let cert = test_cert_der();
    let mut client = make_client();
    let mut cio = TestIo::new();
    let mut server = make_server(cert);
    let mut sio = TestIo::new();

    handshake(&mut client, &mut cio, &mut server, &mut sio);
    drain_events(&mut client);
    drain_events(&mut server);

    let mut buf = [0u8; 32768];
    let mut wire = Vec::new();
    server
        .send_app_data(&mut sio.as_io(), b"parting words")
        .unwrap();
    while let Some(d) = server.poll_output(&mut sio.as_io(), &mut buf) {
        wire.extend_from_slice(d);
    }
    server.close(&mut sio.as_io()).unwrap();
    while let Some(d) = server.poll_output(&mut sio.as_io(), &mut buf) {
        wire.extend_from_slice(d);
    }

    client.feed_data(&mut cio.as_io(), &wire).unwrap();
    let events = drain_events(&mut client);
    assert!(events.contains(&TlsEvent::AppData), "got: {:?}", events);
    assert!(events.contains(&TlsEvent::PeerClosed), "got: {:?}", events);

    let mut rb = [0u8; 64];
    let n = client.recv_app_data(&mut cio.as_io(), &mut rb).unwrap();
    assert_eq!(&rb[..n], b"parting words");
}

#[test]
fn record_header_and_its_errors() {
    let h = encode_record_header(ContentType::Alert, 0x0102);
    assert_eq!(h, [21, 3, 3, 1, 2]);
    let d = decode_record_header(&h).unwrap();
    assert_eq!(d.content_type, ContentType::Alert);
    assert_eq!(d.length, 0x0102);
    assert!(decode_record_header(&[9, 3, 3, 0, 0]).is_err());
}

#[test]
fn message_ends() {
    let flight = [8, 0, 0, 1, 0xaa, 20, 0, 0, 2, 1, 2];
    assert_eq!(handshake_msg_end(&flight, 0), 5);
    assert_eq!(handshake_msg_end(&flight, 5), 11);
    assert_eq!(handshake_msg_end(&flight[..9], 5), 9);
    assert_eq!(handshake_msg_end(&flight, 9), 11);
}

#[test]
fn advertised_limits() {
    assert_eq!(local_record_size_limit::<320>(), 256);
    assert_eq!(local_record_size_limit::<2048>(), 1984);
    assert_eq!(local_record_size_limit::<32768>(), 16385);
}

#[test]
fn sequence_numbers_do_not_move_when_there_is_no_room() {
    let mut client = make_client();
    let mut cio = TlsIoBufs::<512>::new();
    let mut server = make_server(test_cert_der());
    let mut sio = TestIo::new();
    handshake(&mut client, &mut cio, &mut server, &mut sio);
    assert!(client.is_active());
    drain_events(&mut server);

    // More than the send buffer takes in one go.
    assert_eq!(client.send_app_data(&mut cio.as_io(), &[0x61; 500]), Ok(500));
    assert_eq!(
        client.send_app_data(&mut cio.as_io(), &[0x62; 100]),
        Err(Error::BufferTooSmall { needed: 600 })
    );
    let mut got = Vec::new();
    for _ in 0..8 {
        transfer(&mut client, &mut cio, &mut server, &mut sio);
        let mut rb = [0u8; 1024];
        if let Ok(n) = server.recv_app_data(&mut sio.as_io(), &mut rb) {
            got.extend_from_slice(&rb[..n]);
        }
        if got.len() < 500 {
            let _ = client.send_app_data(&mut cio.as_io(), &[]);
        }
    }
    let sent = client.send_seq;
    assert_eq!(got.len() as u64 + cio.app_send_buf.len() as u64, 500);
    assert_eq!(server.recv_seq, sent);
}

#[test]
fn tampered_record_is_refused() {
    let mut client = make_client();
    let mut cio = TestIo::new();
    let mut server = make_server(test_cert_der());
    let mut sio = TestIo::new();
    handshake(&mut client, &mut cio, &mut server, &mut sio);
    client.send_app_data(&mut cio.as_io(), b"payload").unwrap();
    let mut buf = [0u8; 256];
    let mut wire = client.poll_output(&mut cio.as_io(), &mut buf).unwrap().to_vec();
    assert_eq!(wire.len(), RECORD_HEADER_LEN + 7 + 1 + 16);
    let last = wire.len() - 1;
    wire[last] ^= 1;
    assert!(server.feed_data(&mut sio.as_io(), &wire).is_err());
    let mut rb = [0u8; 16];
    assert!(server.recv_app_data(&mut sio.as_io(), &mut rb).is_err());
}

#[test]
fn too_much_at_once_is_refused_before_anything_is_taken() {
    let mut client = make_client();
    let mut cio = TlsIoBufs::<64>::new();
    assert_eq!(
        client.feed_data(&mut cio.as_io(), &[0x16; 65]),
        Err(Error::BufferTooSmall { needed: 65 })
    );
    assert_eq!(cio.recv_buf.len(), 0);
    // A record that can never fit.
    assert_eq!(
        client.feed_data(&mut cio.as_io(), &[0x16, 3, 3, 0, 60]),
        Err(Error::BufferTooSmall { needed: 65 })
    );
}

#[test]
fn fatal_alert_closes() {
    let mut client = make_client();
    let mut cio = TestIo::new();
    assert_eq!(
        client.feed_data(&mut cio.as_io(), &[21, 3, 3, 0, 2, 2, 40]),
        Err(Error::Tls)
    );
    assert!(client.is_closed());
    assert!(client.poll_event().is_none());
}

#[test]
fn parts_handshake_and_give_their_buffers_back() {
    let kit = TlsBufKit {
        net_recv: Vec::leak(vec![0u8; 4096]),
        net_send: Vec::leak(vec![0u8; 4096]),
        app_send: Vec::leak(vec![0u8; 4096]),
    };
    let mut parts =
        TlsParts::<Toy, 4096>::new_server_in(Toy, test_cert_der(), [0xCC; 32], [0xDD; 32], kit);
    let mut client = make_client();
    let mut cio = TestIo::new();
    for _ in 0..20 {
        let mut any = false;
        let mut buf = [0u8; 4096];
        while let Some(data) = client.poll_output(&mut cio.as_io(), &mut buf) {
            let copy = data.to_vec();
            parts.feed_data(&copy).unwrap();
            any = true;
        }
        while let Some(data) = parts.poll_output(&mut buf) {
            let copy = data.to_vec();
            client.feed_data(&mut cio.as_io(), &copy).unwrap();
            any = true;
        }
        if !any {
            break;
        }
    }
    assert!(parts.is_active());
    assert!(!parts.is_closed());
    assert_eq!(parts.alpn(), Some(&b"h2"[..]));
    let back = parts.reclaim_buffers().unwrap();
    assert_eq!(back.net_recv.len(), 4096);
    assert!(parts.reclaim_buffers().is_none());

    let mut heap = TlsParts::<Toy, 4096>::new_server(Toy, test_cert_der(), [0xCC; 32], [0xDD; 32]);
    assert!(heap.net_recv.extend_from_slice(&[1, 2, 3]).is_ok());
    heap.net_recv.hide_tail(2);
    assert!(heap.net_send.extend_from_slice(&[4]).is_ok());
    assert!(heap.app_send.extend_from_slice(&[5, 6]).is_ok());
    assert!(heap.reclaim_buffers().is_none());
    let plain: Buf<4096> = Buf::new();
    assert_eq!(heap.net_recv.len(), plain.len());
    assert_eq!(heap.net_recv.unhide_tail(), 0);
    assert!(heap.net_send.is_empty());
    assert!(heap.app_send.is_empty());
}

#[test]
fn closed_side_ignores_what_still_comes() {
    let mut client = make_client();
    let mut cio = TestIo::new();
    let mut server = make_server(test_cert_der());
    let mut sio = TestIo::new();
    handshake(&mut client, &mut cio, &mut server, &mut sio);
    drain_events(&mut client);
    server.send_app_data(&mut sio.as_io(), b"late").unwrap();
    client.close(&mut cio.as_io()).unwrap();
    transfer(&mut server, &mut sio, &mut client, &mut cio);
    assert!(client.is_closed());
    assert!(drain_events(&mut client).is_empty());
    let mut rb = [0u8; 16];
    assert_eq!(
        client.recv_app_data(&mut cio.as_io(), &mut rb),
        Err(Error::WouldBlock)
    );
}
