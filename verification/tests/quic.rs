use milli_http::connection::keys::CONFIDENTIALITY_LIMIT;
use milli_http::connection::{Connection, ConnectionId, ConnectionState};
use milli_http::crypto::{
    build_nonce, Aead, CryptoProvider, DirectionalKeys, HeaderProtection, Hkdf, Level,
};
use milli_http::error::Error;
use milli_http::packet::MIN_INITIAL_PACKET_SIZE;
use milli_http::tls::{DerivedKeys, TlsSession};
use milli_http::varint::{decode_varint, encode_varint};
use milli_http::{HandshakePool, Instant, QuicStreamIoBufs};

/// Mixes bytes into a running value.
fn mix(mut h: u64, data: &[u8]) -> u64 {
    for b in data {
        h = (h ^ *b as u64).wrapping_mul(0x100_0000_01b3).rotate_left(7);
    }
    h
}

/// A cipher for tests: a keyed stream and a keyed checksum.
struct ToyAead {
    key: Vec<u8>,
}

impl ToyAead {
    fn stream(&self, nonce: &[u8; 12], i: usize) -> u8 {
        (mix(mix(7, &self.key), nonce).wrapping_add(i as u64 * 0x9e37) >> 3) as u8
    }

    fn tag(&self, nonce: &[u8; 12], aad: &[u8], plain: &[u8]) -> [u8; 16] {
        let a = mix(mix(mix(mix(1, &self.key), nonce), aad), plain).to_be_bytes();
        let b = mix(mix(mix(mix(2, &self.key), nonce), aad), plain).to_be_bytes();
        let mut t = [0u8; 16];
        t[..8].copy_from_slice(&a);
        t[8..].copy_from_slice(&b);
        t
    }
}

impl Aead for ToyAead {
    fn seal_in_place(
        &self,
        nonce: &[u8; 12],
        aad: &[u8],
        buf: &mut [u8],
        payload_len: usize,
    ) -> Result<usize, Error> {
        let total = payload_len + 16;
        if buf.len() < total {
            return Err(Error::BufferTooSmall { needed: total });
        }
        let tag = self.tag(nonce, aad, &buf[..payload_len]);
        for i in 0..payload_len {
            buf[i] ^= self.stream(nonce, i);
        }
        buf[payload_len..total].copy_from_slice(&tag);
        Ok(total)
    }

    fn open_in_place(
        &self,
        nonce: &[u8; 12],
        aad: &[u8],
        buf: &mut [u8],
        ciphertext_len: usize,
    ) -> Result<usize, Error> {
        if ciphertext_len < 16 {
            return Err(Error::Crypto);
        }
        let n = ciphertext_len - 16;
        let mut plain = buf[..n].to_vec();
        for (i, b) in plain.iter_mut().enumerate() {
            *b ^= self.stream(nonce, i);
        }
        if self.tag(nonce, aad, &plain) != buf[n..ciphertext_len] {
            return Err(Error::Crypto);
        }
        buf[..n].copy_from_slice(&plain);
        Ok(n)
    }
}

/// Header protection for tests.
struct ToyMask {
    key: u8,
}

impl HeaderProtection for ToyMask {
    fn mask(&self, sample: &[u8; 16]) -> [u8; 5] {
        let h = mix(self.key as u64, sample).to_be_bytes();
        [h[0], h[1], h[2], h[3], h[4]]
    }
}

/// Key expansion for tests.
#[derive(Default)]
struct ToyHkdf;

impl Hkdf for ToyHkdf {
    fn expand(&self, prk: &[u8], info: &[u8], okm: &mut [u8]) -> Result<(), Error> {
        let h = mix(mix(11, prk), info);
        for (i, b) in okm.iter_mut().enumerate() {
            *b = (mix(h, &[i as u8]) >> 11) as u8;
        }
        Ok(())
    }
}

struct Toy;

impl CryptoProvider for Toy {
    type Aead = ToyAead;
    type HeaderProtection = ToyMask;
    type Hkdf = ToyHkdf;
    type InitialAead = ToyAead;
    type InitialHeaderProtection = ToyMask;
    type Tls = ToyTls;

    fn key_len(&self) -> usize {
        16
    }

    fn aead(&self, key: &[u8]) -> Result<ToyAead, Error> {
        Ok(ToyAead { key: key.to_vec() })
    }
}

/// A handshake engine for tests: the messages of TLS 1.3 in their order, with
/// traffic secrets that both sides know.
struct ToyTls {
    server: bool,
    cert: Vec<u8>,
    limit: u16,
    peer_limit: Option<u16>,
    alpn: Option<Vec<u8>>,
    hello_sent: bool,
    output: Vec<(Level, Vec<u8>, bool)>,
    keys: Vec<DerivedKeys>,
    complete: bool,
}

fn message(kind: u8, body: &[u8]) -> Vec<u8> {
    let mut m = vec![kind, 0, (body.len() >> 8) as u8, body.len() as u8];
    m.extend_from_slice(body);
    m
}

impl ToyTls {
    fn new(server: bool, cert: Vec<u8>) -> Self {
        ToyTls {
            server,
            cert,
            limit: 16385,
            peer_limit: None,
            alpn: None,
            hello_sent: server,
            output: Vec::new(),
            keys: Vec::new(),
            complete: false,
        }
    }

    fn secrets(&self, level: Level) -> DerivedKeys {
        let base = if level == Level::Handshake { 0x10 } else { 0x20 };
        let client = [base; 48];
        let server = [base + 1; 48];
        let (send_secret, recv_secret) =
            if self.server { (server, client) } else { (client, server) };
        DerivedKeys { level, send_secret, recv_secret, secret_len: 32 }
    }

    fn read_message(&mut self, level: Level, kind: u8, body: &[u8]) -> Result<(), Error> {
        match (self.server, level, kind) {
            (true, Level::Initial, 1) => {
                self.peer_limit = Some(u16::from_be_bytes([body[0], body[1]]));
                self.alpn = Some(body[2..].to_vec());
                let mut flight = message(8, &[&self.limit.to_be_bytes()[..], &body[2..]].concat());
                flight.extend(message(11, &self.cert));
                flight.extend(message(15, &[0x5a; 64]));
                flight.extend(message(20, &[0x33; 32]));
                self.output.push((Level::Initial, message(2, &[0x77; 40]), false));
                self.output.push((Level::Handshake, flight, false));
                let hs = self.secrets(Level::Handshake);
                let app = self.secrets(Level::Application);
                self.keys.push(hs);
                self.keys.push(app);
                Ok(())
            }
            (false, Level::Initial, 2) => {
                let hs = self.secrets(Level::Handshake);
                self.keys.push(hs);
                Ok(())
            }
            (false, Level::Handshake, 8) => {
                self.peer_limit = Some(u16::from_be_bytes([body[0], body[1]]));
                self.alpn = Some(body[2..].to_vec());
                Ok(())
            }
            (false, Level::Handshake, 11) | (false, Level::Handshake, 15) => Ok(()),
            (false, Level::Handshake, 20) => {
                let app = self.secrets(Level::Application);
                self.keys.push(app);
                self.output.push((Level::Handshake, message(20, &[0x44; 32]), true));
                Ok(())
            }
            (true, Level::Handshake, 20) => {
                self.complete = true;
                Ok(())
            }
            _ => Err(Error::Tls),
        }
    }
}

impl TlsSession for ToyTls {
    type ClientConfig = ();
    type ServerConfig = Vec<u8>;

    fn new_tcp_client(_config: (), _secret: [u8; 32], _random: [u8; 32]) -> Self {
        ToyTls::new(false, Vec::new())
    }

    fn new_tcp_server(config: Vec<u8>, _secret: [u8; 32], _random: [u8; 32]) -> Self {
        ToyTls::new(true, config)
    }

    fn read_handshake(&mut self, level: Level, data: &[u8]) -> Result<(), Error> {
        let mut off = 0;
        while off < data.len() {
            if data.len() - off < 4 {
                return Err(Error::Tls);
            }
            let len = data[off + 2] as usize * 256 + data[off + 3] as usize;
            if data.len() - off - 4 < len {
                return Err(Error::Tls);
            }
            self.read_message(level, data[off], &data[off + 4..off + 4 + len])?;
            off += 4 + len;
        }
        Ok(())
    }

    fn write_handshake(&mut self, buf: &mut [u8]) -> Result<(usize, Level), Error> {
        if !self.hello_sent {
            self.hello_sent = true;
            let hello = message(1, &[&self.limit.to_be_bytes()[..], b"h2"].concat());
            self.output.push((Level::Initial, hello, false));
        }
        if self.output.is_empty() {
            return Ok((0, Level::Initial));
        }
        let (level, data, last) = self.output.remove(0);
        if data.len() > buf.len() {
            return Err(Error::BufferTooSmall { needed: data.len() });
        }
        buf[..data.len()].copy_from_slice(&data);
        if last {
            self.complete = true;
        }
        Ok((data.len(), level))
    }

    fn derived_keys(&mut self) -> Option<DerivedKeys> {
        if self.keys.is_empty() {
            None
        } else {
            Some(self.keys.remove(0))
        }
    }

    fn set_local_record_size_limit(&mut self, limit: u16) {
        self.limit = limit;
    }

    fn shrink_post_handshake(&mut self) {
        self.cert = Vec::new();
    }

    fn is_complete(&self) -> bool {
        self.complete
    }

    fn alpn(&self) -> Option<&[u8]> {
        self.alpn.as_deref()
    }

    fn peer_record_size_limit(&self) -> Option<u16> {
        self.peer_limit
    }
}

type Conn = Connection<Toy, 32, 128, 4>;
type SioBufs = QuicStreamIoBufs<1024, 16>;
type Pool = HandshakePool<Toy, 4, 4096>;

const CLIENT_APP: u8 = 0x33;

fn make_pool() -> Pool {
    HandshakePool::new()
}

fn keys(seed: u8) -> DirectionalKeys<ToyAead, ToyMask> {
    DirectionalKeys {
        aead: ToyAead { key: vec![seed; 16] },
        iv: [seed; 12],
        header_protection: ToyMask { key: seed },
    }
}

fn make_client(pool: &mut Pool) -> (Conn, SioBufs) {
    let conn = Conn::client(
        Toy,
        ToyTls::new(false, Vec::new()),
        keys(1),
        ConnectionId::from_slice(&[0x10; 8]).unwrap(),
        ConnectionId::from_slice(&[0x20; 8]).unwrap(),
        pool,
    )
    .unwrap();
    (conn, SioBufs::new())
}

fn make_server(pool: &mut Pool) -> (Conn, SioBufs) {
    let conn = Conn::server(
        Toy,
        ToyTls::new(true, vec![0xCE; 200]),
        ConnectionId::from_slice(&[0x20; 8]).unwrap(),
        ConnectionId::from_slice(&[0x10; 8]).unwrap(),
        pool,
    )
    .unwrap();
    (conn, SioBufs::new())
}

/// Brings a client to where the handshake leaves it: its first flight is sent
/// and the application keys are in place.
fn establish(conn: &mut Conn, sio: &mut SioBufs, now: Instant, pool: &mut Pool) {
    drain_transmits(conn, sio, now, pool);
    conn.keys.handshake_send = Some(keys(2));
    conn.keys.application_send = Some(keys(CLIENT_APP));
    conn.keys.key_update.send_secret = vec![9; 32];
    conn.state = ConnectionState::Active;
    drain_transmits(conn, sio, now, pool);
}

/// Drain all pending transmits from a connection.
fn drain_transmits(conn: &mut Conn, sio: &mut SioBufs, now: Instant, pool: &mut Pool) {
    loop {
        let mut buf = [0u8; 4096];
        if conn.poll_transmit(sio, &mut buf, now, pool).is_none() {
            break;
        }
    }
}

/// Removes the protection of a short-header packet: first byte, packet number
/// and frames.
fn open_short(packet: &[u8], k: &DirectionalKeys<ToyAead, ToyMask>) -> (u8, u64, Vec<u8>) {
    let at = 1 + 8;
    let mut p = packet.to_vec();
    let mut sample = [0u8; 16];
    sample.copy_from_slice(&p[at + 4..at + 20]);
    let mask = k.header_protection.mask(&sample);
    p[0] ^= mask[0] & 0x1f;
    let n = (p[0] & 0x03) as usize + 1;
    let mut pn = 0u64;
    for i in 0..n {
        p[at + i] ^= mask[1 + i];
        pn = pn * 256 + p[at + i] as u64;
    }
    let aad = p[..at + n].to_vec();
    let mut body = p[at + n..].to_vec();
    let len = body.len();
    let m = k
        .aead
        .open_in_place(&build_nonce(&k.iv, pn), &aad, &mut body, len)
        .unwrap();
    (p[0], pn, body[..m].to_vec())
}

/// The STREAM frames among frames: ID, offset, data, end.
fn stream_frames(frames: &[u8]) -> Vec<(u64, u64, Vec<u8>, bool)> {
    let mut out = Vec::new();
    let mut p = 0;
    while p < frames.len() {
        let t = frames[p];
        p += 1;
        if t & 0xf8 != 0x08 {
            continue;
        }
        let (id, n) = decode_varint(&frames[p..]).unwrap();
        p += n;
        let mut off = 0;
        if t & 0x04 != 0 {
            let (o, n) = decode_varint(&frames[p..]).unwrap();
            off = o;
            p += n;
        }
        let mut len = frames.len() - p;
        if t & 0x02 != 0 {
            let (l, n) = decode_varint(&frames[p..]).unwrap();
            p += n;
            len = l as usize;
        }
        out.push((id, off, frames[p..p + len].to_vec(), t & 0x01 != 0));
        p += len;
    }
    out
}

#[test]
fn poll_transmit_returns_none_when_nothing_to_send() {
    let mut pool = make_pool();
    let (mut client, mut c_sio) = make_client(&mut pool);
    let mut buf = [0u8; 2048];

    // First call emits the Initial (ClientHello).
    let tx1 = client.poll_transmit(&mut c_sio, &mut buf, 0, &mut pool);
    assert!(tx1.is_some(), "first call should produce Initial");

    // Second call: no more data to send.
    let tx2 = client.poll_transmit(&mut c_sio, &mut buf, 0, &mut pool);
    assert!(tx2.is_none(), "second call should return None");
}

#[test]
fn client_initial_padded_to_1200_bytes() {
    let mut pool = make_pool();
    let (mut client, mut c_sio) = make_client(&mut pool);
    let mut buf = [0u8; 2048];
    let tx = client
        .poll_transmit(&mut c_sio, &mut buf, 0, &mut pool)
        .unwrap();
    assert!(
        tx.data.len() >= MIN_INITIAL_PACKET_SIZE,
        "Initial packet must be padded to at least {} bytes, got {}",
        MIN_INITIAL_PACKET_SIZE,
        tx.data.len()
    );
}

#[test]
fn client_initial_has_long_header() {
    let mut pool = make_pool();
    let (mut client, mut c_sio) = make_client(&mut pool);
    let mut buf = [0u8; 2048];
    let tx = client
        .poll_transmit(&mut c_sio, &mut buf, 0, &mut pool)
        .unwrap();
    // The form bit (bit 7) of a long header is 1.
    assert_ne!(
        tx.data[0] & 0x80,
        0,
        "Initial packet first byte should have form bit set (long header)"
    );
}

#[test]
fn stream_data_produces_short_header_packet() {
    let mut pool = make_pool();
    let (mut client, mut c_sio) = make_client(&mut pool);
    let now = 1_000_000u64;
    establish(&mut client, &mut c_sio, now, &mut pool);

    // Send stream data.
    let stream_id = client.open_stream().unwrap();
    client
        .stream_send(&mut c_sio, stream_id, b"test data", false)
        .unwrap();

    let mut buf = [0u8; 2048];
    let tx = client
        .poll_transmit(&mut c_sio, &mut buf, now, &mut pool)
        .unwrap();

    // Short header: form bit (bit 7) = 0.
    assert_eq!(
        tx.data[0] & 0x80,
        0,
        "1-RTT stream data should use a short header"
    );
}

#[test]
fn connection_close_produces_packet() {
    let mut pool = make_pool();
    let (mut client, mut c_sio) = make_client(&mut pool);
    let now = 1_000_000u64;
    establish(&mut client, &mut c_sio, now, &mut pool);

    client.close(42, b"goodbye");
    assert_eq!(client.state(), ConnectionState::Closing);

    let mut buf = [0u8; 2048];
    let tx = client.poll_transmit(&mut c_sio, &mut buf, now, &mut pool);
    assert!(
        tx.is_some(),
        "closing should produce a CONNECTION_CLOSE packet"
    );
    assert_eq!(
        client.state(),
        ConnectionState::Closed,
        "state should transition to Closed after sending CONNECTION_CLOSE"
    );
}

#[test]
fn connection_close_no_further_transmits() {
    let mut pool = make_pool();
    let (mut client, mut c_sio) = make_client(&mut pool);
    let now = 1_000_000u64;
    establish(&mut client, &mut c_sio, now, &mut pool);

    client.close(0, b"done");

    // Drain the close packet.
    let mut buf = [0u8; 2048];
    let _ = client.poll_transmit(&mut c_sio, &mut buf, now, &mut pool);
    assert!(client.is_closed());

    // Nothing further should be sent after Closed.
    let tx = client.poll_transmit(&mut c_sio, &mut buf, now, &mut pool);
    assert!(
        tx.is_none(),
        "no packets should be sent after connection is Closed"
    );
}

#[test]
fn packet_number_increments_after_transmit() {
    let mut pool = make_pool();
    let (mut client, mut c_sio) = make_client(&mut pool);

    // Before any transmit, Initial PN starts at 0.
    assert_eq!(client.next_pn[0], 0, "Initial PN should start at 0");

    let mut buf = [0u8; 2048];
    let _ = client.poll_transmit(&mut c_sio, &mut buf, 0, &mut pool);

    // After sending one Initial packet, PN should be 1.
    assert_eq!(
        client.next_pn[0], 1,
        "Initial PN should increment to 1 after one transmit"
    );
}

#[test]
fn anti_amplification_blocks_without_received_bytes() {
    let mut pool = make_pool();
    let (mut server, mut s_sio) = make_server(&mut pool);

    // Server with no received bytes should not be able to send.
    assert!(!server.address_validated);
    assert_eq!(server.anti_amplification_bytes_received, 0);

    let mut buf = [0u8; 2048];
    let tx = server.poll_transmit(&mut s_sio, &mut buf, 0, &mut pool);
    assert!(
        tx.is_none(),
        "server should not send when no bytes have been received (anti-amplification)"
    );
}

#[test]
fn build_ack_frame_single_range() {
    let mut pool = make_pool();
    let (mut client, _c_sio) = make_client(&mut pool);

    // Record a contiguous range of packet numbers at Initial level.
    client.track_received_pn(Level::Initial, 0);
    client.track_received_pn(Level::Initial, 1);
    client.track_received_pn(Level::Initial, 2);

    // Build an ACK frame.
    let mut buf = [0u8; 256];
    let written = client.build_ack_frame(Level::Initial, &mut buf);
    assert!(
        written.is_some(),
        "should produce an ACK frame for tracked PNs"
    );
    let ack_len = written.unwrap();
    assert!(ack_len > 0, "ACK frame should have non-zero length");

    // Decode the first byte to verify it is an ACK frame type (0x02 or 0x03).
    assert!(
        buf[0] == 0x02 || buf[0] == 0x03,
        "frame type byte should be ACK (0x02) or ACK_ECN (0x03), got {:#x}",
        buf[0]
    );
}

#[test]
fn build_ack_frame_multiple_ranges() {
    let mut pool = make_pool();
    let (mut client, _c_sio) = make_client(&mut pool);

    // Record non-contiguous PNs: [0,1] and [5,6] and [10,10].
    client.track_received_pn(Level::Initial, 0);
    client.track_received_pn(Level::Initial, 1);
    client.track_received_pn(Level::Initial, 5);
    client.track_received_pn(Level::Initial, 6);
    client.track_received_pn(Level::Initial, 10);

    // Verify the tracker has 3 ranges.
    assert_eq!(client.recv_pn_tracker[0].ranges.len(), 3);

    // Build ACK frame.
    let mut buf = [0u8; 256];
    let written = client.build_ack_frame(Level::Initial, &mut buf);
    assert!(written.is_some());
    let ack_len = written.unwrap();

    // A multi-range ACK must be longer than a single-range ACK due to
    // the gap/range pairs encoded after the first range.
    assert!(
        ack_len > 5,
        "multi-range ACK should be more than 5 bytes, got {}",
        ack_len
    );

    // largest 10, no delay, two pairs, first range 0; gap 2 and range 1; gap 2
    // and range 1.
    assert_eq!(&buf[..ack_len], &[0x02, 10, 0, 2, 0, 2, 1, 2, 1]);
}

#[test]
fn build_ack_frame_empty_tracker_returns_none() {
    let mut pool = make_pool();
    let (client, _c_sio) = make_client(&mut pool);

    // No PNs recorded.
    let mut buf = [0u8; 256];
    let written = client.build_ack_frame(Level::Initial, &mut buf);
    assert!(
        written.is_none(),
        "should return None when no PNs have been received"
    );
}

#[test]
fn multiple_streams_in_one_packet() {
    let mut pool = make_pool();
    let (mut client, mut c_sio) = make_client(&mut pool);
    let now = 1_000_000u64;
    establish(&mut client, &mut c_sio, now, &mut pool);

    // Open two streams and queue data on both.
    let s1 = client.open_stream().unwrap();
    let s2 = client.open_stream().unwrap();
    client
        .stream_send(&mut c_sio, s1, b"stream one", false)
        .unwrap();
    client
        .stream_send(&mut c_sio, s2, b"stream two", false)
        .unwrap();

    assert_eq!(
        c_sio.send_queue.len(),
        2,
        "two stream entries should be queued"
    );

    // A single poll_transmit should drain both streams.
    let mut buf = [0u8; 2048];
    let tx = client.poll_transmit(&mut c_sio, &mut buf, now, &mut pool);
    assert!(tx.is_some(), "should produce a packet with both streams");

    assert_eq!(
        c_sio.send_queue.len(),
        0,
        "send queue should be empty after transmit"
    );
}

#[test]
fn closed_connection_returns_none() {
    let mut pool = make_pool();
    let (mut client, mut c_sio) = make_client(&mut pool);
    client.state = ConnectionState::Closed;

    let mut buf = [0u8; 2048];
    let tx = client.poll_transmit(&mut c_sio, &mut buf, 0, &mut pool);
    assert!(
        tx.is_none(),
        "Closed connection should not produce any transmits"
    );
}

#[test]
fn close_before_handshake_sends_initial_level_close() {
    let mut pool = make_pool();
    let (mut client, mut c_sio) = make_client(&mut pool);

    // Close immediately before any handshake exchange.
    client.close(1, b"early close");
    assert_eq!(client.state(), ConnectionState::Closing);

    let mut buf = [0u8; 2048];
    let tx = client.poll_transmit(&mut c_sio, &mut buf, 0, &mut pool);
    assert!(
        tx.is_some(),
        "CONNECTION_CLOSE should be sent at Initial level"
    );
    assert_eq!(client.state(), ConnectionState::Closed);

    // The packet should be a long header (Initial level).
    assert_ne!(
        tx.unwrap().data[0] & 0x80,
        0,
        "CONNECTION_CLOSE before handshake should use long header"
    );
}

#[test]
fn close_with_a_reason_too_long_is_silent() {
    let mut pool = make_pool();
    let (mut client, mut c_sio) = make_client(&mut pool);
    client.close(1, &[b'x'; 200]);
    let mut buf = [0u8; 2048];
    assert!(client
        .poll_transmit(&mut c_sio, &mut buf, 0, &mut pool)
        .is_none());
    assert_eq!(client.state(), ConnectionState::Closed);
    assert!(client
        .poll_transmit(&mut c_sio, &mut buf, 1, &mut pool)
        .is_none());
}

#[test]
fn anti_amplification_bytes_sent_tracking() {
    let mut pool = make_pool();
    let (mut server, _s_sio) = make_server(&mut pool);

    // Simulate receiving 2000 bytes so the server can send up to 6000.
    server.anti_amplification_bytes_received = 2000;
    assert_eq!(server.anti_amplification_bytes_sent, 0);

    // The server has no data to send (no Initial keys derived for the
    // remote DCID yet), so poll_transmit won't produce anything.
    // But the tracking mechanism is verified by checking the field.
    assert!(server.amplification_allows(6000));
    assert!(!server.amplification_allows(6001));
}

#[test]
fn initial_packet_records_sent_packet() {
    let mut pool = make_pool();
    let (mut client, mut c_sio) = make_client(&mut pool);

    // Before transmit, no packets recorded.
    assert_eq!(client.sent_tracker.count(), 0);

    let mut buf = [0u8; 2048];
    let _ = client.poll_transmit(&mut c_sio, &mut buf, 0, &mut pool);

    // After transmit, one packet should be recorded.
    assert_eq!(
        client.sent_tracker.count(),
        1,
        "sent_tracker should record the transmitted Initial packet"
    );
}

#[test]
fn stream_data_after_close_is_blocked() {
    let mut pool = make_pool();
    let (mut client, mut c_sio) = make_client(&mut pool);
    let now = 1_000_000u64;
    establish(&mut client, &mut c_sio, now, &mut pool);

    let stream_id = client.open_stream().unwrap();
    client.close(0, b"bye");

    // Drain the close packet.
    let mut buf = [0u8; 2048];
    let _ = client.poll_transmit(&mut c_sio, &mut buf, now, &mut pool);
    assert!(client.is_closed());

    // Sending on a stream after close should fail.
    let result = client.stream_send(&mut c_sio, stream_id, b"too late", false);
    assert!(
        result.is_err(),
        "stream_send after close should return an error"
    );
}

/// The stream data in every pending packet of a connection.
fn deliver(conn: &mut Conn, sio: &mut SioBufs, now: Instant, pool: &mut Pool) -> Vec<u8> {
    let mut got = Vec::new();
    loop {
        let mut buf = [0u8; 4096];
        match conn.poll_transmit(sio, &mut buf, now, pool) {
            Some(tx) => {
                let (_, _, frames) = open_short(tx.data, &keys(CLIENT_APP));
                for (_, _, data, _) in stream_frames(&frames) {
                    got.extend_from_slice(&data);
                }
            }
            None => break,
        }
    }
    got
}

/// Congestion control (RFC 9002 section 7): when the congestion window is full,
/// new STREAM data is deferred rather than flooded onto the network, while
/// the connection otherwise stays alive and resumes once the window reopens.
#[test]
fn congestion_window_gates_stream_data() {
    let mut pool = make_pool();
    let (mut client, mut c_sio) = make_client(&mut pool);
    let now: Instant = 1_000_000;
    establish(&mut client, &mut c_sio, now, &mut pool);

    // Exhaust the congestion window: pretend a full cwnd is already in flight
    // so available_window() == 0.
    let cwnd = client.congestion.cwnd();
    client.congestion.on_packet_sent(cwnd);
    assert_eq!(client.congestion.available_window(), 0);

    let stream_id = client.open_stream().unwrap();
    assert_eq!(
        client
            .stream_send(&mut c_sio, stream_id, &[0xABu8; 1024], false)
            .unwrap(),
        1024
    );

    let readable = deliver(&mut client, &mut c_sio, now, &mut pool);
    assert!(
        readable.is_empty(),
        "stream data must be withheld while the congestion window is full"
    );

    // Simulate the in-flight data being acknowledged; the window reopens and
    // the queued stream data now reaches the server.
    client.congestion.on_packet_acked(cwnd);
    assert!(client.congestion.available_window() > 0);
    let readable_after = deliver(&mut client, &mut c_sio, now, &mut pool);
    assert_eq!(
        readable_after,
        vec![0xABu8; 1024],
        "stream data should flow once the congestion window reopens"
    );
}

#[test]
fn packet_carries_the_stream_data_and_its_end() {
    let mut pool = make_pool();
    let (mut client, mut c_sio) = make_client(&mut pool);
    let now = 1_000_000u64;
    establish(&mut client, &mut c_sio, now, &mut pool);
    let id = client.open_stream().unwrap();
    assert_eq!(id, 0);
    assert_eq!(client.stream_send(&mut c_sio, id, b"hello ", false), Ok(6));
    assert_eq!(client.stream_send(&mut c_sio, id, b"server!", true), Ok(7));
    assert_eq!(
        client.stream_send(&mut c_sio, id, b"more", false),
        Err(Error::InvalidState)
    );
    assert_eq!(
        client.stream_send(&mut c_sio, 4, b"x", false),
        Err(Error::UnknownStream)
    );
    let pn = client.next_pn[2];
    let mut buf = [0u8; 2048];
    let tx = client
        .poll_transmit(&mut c_sio, &mut buf, now, &mut pool)
        .unwrap();
    assert_eq!(&tx.data[1..9], &[0x10; 8]);
    let (first, number, frames) = open_short(tx.data, &keys(CLIENT_APP));
    assert_eq!(first & 0xe0, 0x40);
    assert_eq!(number, pn);
    assert_eq!(client.next_pn[2], pn + 1);
    assert_eq!(
        stream_frames(&frames),
        vec![
            (0, 0, b"hello ".to_vec(), false),
            (0, 6, b"server!".to_vec(), true),
        ]
    );
}

#[test]
fn retransmission_flag_sends_the_handshake_again() {
    let mut pool = make_pool();
    let (mut client, mut c_sio) = make_client(&mut pool);
    let mut buf = [0u8; 2048];
    let first = client
        .poll_transmit(&mut c_sio, &mut buf, 0, &mut pool)
        .unwrap()
        .data
        .len();
    assert!(client.poll_transmit(&mut c_sio, &mut buf, 0, &mut pool).is_none());
    client.crypto_rewind_pending = true;
    let again = client
        .poll_transmit(&mut c_sio, &mut buf, 0, &mut pool)
        .unwrap()
        .data
        .len();
    assert_eq!(first, again);
    assert!(!client.crypto_rewind_pending);
    assert_eq!(client.next_pn[0], 2);
}

#[test]
fn exhausted_key_is_replaced() {
    let mut pool = make_pool();
    let (mut client, mut c_sio) = make_client(&mut pool);
    establish(&mut client, &mut c_sio, 5, &mut pool);
    client.keys.key_update.packets_encrypted = CONFIDENTIALITY_LIMIT;
    let id = client.open_stream().unwrap();
    client.stream_send(&mut c_sio, id, b"new phase", false).unwrap();
    let mut buf = [0u8; 2048];
    let data = client
        .poll_transmit(&mut c_sio, &mut buf, 5, &mut pool)
        .unwrap()
        .data
        .to_vec();
    assert_eq!(client.keys.key_update.phase & 1, 1);
    assert_eq!(client.keys.key_update.packets_encrypted, 1);
    assert_ne!(client.keys.key_update.send_secret, vec![9; 32]);
    let mut sample = [0u8; 16];
    sample.copy_from_slice(&data[13..29]);
    let mask = keys(CLIENT_APP).header_protection.mask(&sample);
    assert_eq!((data[0] ^ (mask[0] & 0x1f)) & 0x04, 0x04);
}

#[test]
fn server_never_sends_more_than_three_times_what_it_received() {
    let mut pool = make_pool();
    let (mut server, mut s_sio) = make_server(&mut pool);
    server.keys.initial_send = Some(keys(7));
    server.anti_amplification_bytes_received = 10;
    server.track_received_pn(Level::Initial, 0);
    server.ack_eliciting_received[0] = true;
    let mut buf = [0u8; 2048];
    assert!(server.poll_transmit(&mut s_sio, &mut buf, 0, &mut pool).is_none());
    assert_eq!(server.anti_amplification_bytes_sent, 0);
}

#[test]
fn streams_run_out() {
    let mut pool = make_pool();
    let (mut client, mut c_sio) = make_client(&mut pool);
    for i in 0..32 {
        assert_eq!(client.open_stream(), Ok(i * 4));
    }
    assert_eq!(client.open_stream(), Err(Error::StreamLimit));
    assert_eq!(client.stream_room(&c_sio, 0), Ok(1024));
    for _ in 0..16 {
        assert_eq!(client.stream_send(&mut c_sio, 0, &[1; 2000], false), Ok(1024));
    }
    assert_eq!(client.stream_room(&c_sio, 0), Err(Error::WouldBlock));
    assert_eq!(
        client.stream_send(&mut c_sio, 0, b"x", false),
        Err(Error::WouldBlock)
    );
}

#[test]
fn pool_runs_out_and_recovers() {
    let mut pool = HandshakePool::<Toy, 1, 4096>::new();
    let id = ConnectionId::from_slice(&[1; 8]).unwrap();
    let a = Connection::<Toy, 4, 8, 2>::server(Toy, ToyTls::new(true, Vec::new()), id, id, &mut pool);
    assert!(a.is_some());
    let b = Connection::<Toy, 4, 8, 2>::server(Toy, ToyTls::new(true, Vec::new()), id, id, &mut pool);
    assert!(b.is_none());
    pool.release(a.unwrap().handshake_slot.unwrap());
    let c = Connection::<Toy, 4, 8, 2>::server(Toy, ToyTls::new(true, Vec::new()), id, id, &mut pool);
    assert!(c.is_some());
    assert!(ConnectionId::from_slice(&[0; 21]).is_none());
}

#[test]
fn varints_of_all_lengths() {
    for (v, bytes) in [
        (37u64, &[0x25u8][..]),
        (63, &[0x3f]),
        (64, &[0x40, 0x40]),
        (15293, &[0x7b, 0xbd]),
        (494_878_333, &[0x9d, 0x7f, 0x3e, 0x7d]),
        (151_288_809_941_952_652, &[0xc2, 0x19, 0x7c, 0x5e, 0xff, 0x14, 0xe8, 0x8c]),
    ] {
        let mut out = [0u8; 8];
        assert_eq!(encode_varint(v, &mut out), Ok(bytes.len()));
        assert_eq!(&out[..bytes.len()], bytes);
        assert_eq!(decode_varint(bytes), Ok((v, bytes.len())));
        assert_eq!(decode_varint(&bytes[..bytes.len() - 1]), Err(Error::InvalidVarint));
    }
    let mut out = [0u8; 8];
    assert_eq!(encode_varint(1 << 62, &mut out), Err(Error::InvalidVarint));
    assert_eq!(
        encode_varint(64, &mut out[..1]),
        Err(Error::BufferTooSmall { needed: 2 })
    );
}

#[test]
fn handshake_engine_output_and_secrets() {
    // The engine itself is only a stand-in; what counts is that it hands each
    // piece out once.
    let mut tls = ToyTls::new(false, Vec::new());
    let mut buf = [0u8; 64];
    assert!(tls.write_handshake(&mut buf).unwrap().0 > 0);
    assert_eq!(tls.write_handshake(&mut buf).unwrap().0, 0);
    let keys: Option<DerivedKeys> = tls.derived_keys();
    assert!(keys.is_none());
}

/// Removes the protection of an Initial packet: packet number and frames.
fn open_initial(packet: &[u8], k: &DirectionalKeys<ToyAead, ToyMask>) -> (u64, Vec<u8>) {
    let dcid = packet[5] as usize;
    let scid = packet[6 + dcid] as usize;
    let mut at = 7 + dcid + scid;
    let (token, n) = decode_varint(&packet[at..]).unwrap();
    at += n + token as usize;
    let (len, n) = decode_varint(&packet[at..]).unwrap();
    at += n;
    assert_eq!(at + len as usize, packet.len());
    let mut p = packet.to_vec();
    let mut sample = [0u8; 16];
    sample.copy_from_slice(&p[at + 4..at + 20]);
    let mask = k.header_protection.mask(&sample);
    p[0] ^= mask[0] & 0x0f;
    let n = (p[0] & 0x03) as usize + 1;
    let mut pn = 0u64;
    for i in 0..n {
        p[at + i] ^= mask[1 + i];
        pn = pn * 256 + p[at + i] as u64;
    }
    let aad = p[..at + n].to_vec();
    let mut body = p[at + n..].to_vec();
    let len = body.len();
    let m = k
        .aead
        .open_in_place(&build_nonce(&k.iv, pn), &aad, &mut body, len)
        .unwrap();
    (pn, body[..m].to_vec())
}

#[test]
fn initial_packet_carries_the_hello_and_padding() {
    let mut pool = make_pool();
    let (mut client, mut c_sio) = make_client(&mut pool);
    let mut buf = [0u8; 2048];
    let data = client
        .poll_transmit(&mut c_sio, &mut buf, 0, &mut pool)
        .unwrap()
        .data
        .to_vec();
    let (pn, frames) = open_initial(&data, &keys(1));
    assert_eq!(pn, 0);
    let hello = message(1, &[&16385u16.to_be_bytes()[..], b"h2"].concat());
    assert_eq!(&frames[..3], &[0x06, 0, hello.len() as u8]);
    assert_eq!(&frames[3..3 + hello.len()], &hello[..]);
    assert!(frames[3 + hello.len()..].iter().all(|b| *b == 0));
}

#[test]
fn long_handshake_goes_out_in_order_and_without_gaps() {
    let mut pool = make_pool();
    let (mut server, mut s_sio) = make_server(&mut pool);
    server.keys.initial_send = Some(keys(7));
    server.keys.handshake_send = Some(keys(8));
    server.address_validated = true;
    let slot = server.handshake_slot.unwrap();
    let ctx = pool.slots[slot].as_mut().unwrap();
    let hello = message(1, &[&16385u16.to_be_bytes()[..], b"h2"].concat());
    ctx.tls.read_handshake(Level::Initial, &hello).unwrap();
    ctx.tls.output.remove(0);
    let flight = ctx.tls.output[0].1.clone();
    let mut sent = 0usize;
    for _ in 0..20 {
        let mut buf = [0u8; 150];
        let _ = server.poll_transmit(&mut s_sio, &mut buf, 0, &mut pool);
        let ctx = pool.slots[slot].as_ref().unwrap();
        let now = ctx.crypto_send_offset[1] as usize;
        assert!(now >= sent && now - sent < 150);
        sent = now;
        assert_eq!(ctx.pending_crypto[1].as_slice(), &flight[..]);
    }
    assert_eq!(sent, flight.len());
    assert!(server.next_pn[1] > 1);
}

#[test]
fn server_sends_handshake_done() {
    let mut pool = make_pool();
    let (mut client, mut c_sio) = make_client(&mut pool);
    let (mut server, mut s_sio) = make_server(&mut pool);
    let now = 1_000_000u64;

    // Server starts with need_handshake_done = true.
    assert!(server.need_handshake_done);

    establish(&mut client, &mut c_sio, now, &mut pool);
    server.address_validated = true;
    establish(&mut server, &mut s_sio, now, &mut pool);

    // After handshake, the server should have cleared need_handshake_done
    // because it was transmitted as part of the handshake exchange.
    assert!(
        !server.need_handshake_done,
        "need_handshake_done should be false after handshake completes"
    );
}

#[test]
fn ack_alone_does_not_restart_the_loss_timer() {
    let mut pool = make_pool();
    let (mut server, mut s_sio) = make_server(&mut pool);
    server.address_validated = true;
    server.keys.initial_send = Some(keys(7));
    server.loss_detector.on_ack_eliciting_sent(Level::Initial, 1_000_000);
    server.track_received_pn(Level::Initial, 0);
    server.ack_eliciting_received[0] = true;
    let mut buf = [0u8; 2048];
    let len = server
        .poll_transmit(&mut s_sio, &mut buf, 2_500_000, &mut pool)
        .unwrap()
        .data
        .len();
    assert!(len < 200, "only an ACK should go out here, got {len} B");
    assert_eq!(server.loss_detector.initial, Some(1_000_000));
    assert_eq!(server.congestion.available_window(), 12000 - len as u64);
    let sent = server.sent_tracker.sent_below_pn(Level::Initial, 10);
    assert_eq!(sent.len(), 1);
    assert!(!sent[0].ack_eliciting);
    assert!(sent[0].in_flight);
    assert_eq!(sent[0].size as usize, len);

    // A client pads it; it elicits nothing all the same.
    let (mut client, mut c_sio) = make_client(&mut pool);
    let mut buf = [0u8; 2048];
    assert!(client.poll_transmit(&mut c_sio, &mut buf, 10, &mut pool).is_some());
    assert_eq!(client.loss_detector.initial, Some(10));
    client.track_received_pn(Level::Initial, 0);
    client.ack_eliciting_received[0] = true;
    assert!(client.poll_transmit(&mut c_sio, &mut buf, 20, &mut pool).is_some());
    assert_eq!(client.loss_detector.initial, Some(10));
    let sent = client.sent_tracker.sent_below_pn(Level::Initial, 10);
    assert!(sent[0].ack_eliciting && sent[0].in_flight);
    assert!(!sent[1].ack_eliciting && sent[1].in_flight);

    // At the application level it is the stream data that makes the difference.
    establish(&mut client, &mut c_sio, 30, &mut pool);
    client.track_received_pn(Level::Application, 0);
    client.ack_eliciting_received[2] = true;
    let before = client.congestion.available_window();
    assert!(client.poll_transmit(&mut c_sio, &mut buf, 40, &mut pool).is_some());
    assert_eq!(client.loss_detector.application, None);
    assert!(client.congestion.available_window() < before);
    let id = client.open_stream().unwrap();
    client.stream_send(&mut c_sio, id, b"data", false).unwrap();
    assert!(client.poll_transmit(&mut c_sio, &mut buf, 50, &mut pool).is_some());
    assert_eq!(client.loss_detector.application, Some(50));
}

#[test]
fn closed_connection_leaves_the_buffer_alone() {
    let mut pool = make_pool();
    let (mut client, mut c_sio) = make_client(&mut pool);
    establish(&mut client, &mut c_sio, 5, &mut pool);
    let id = client.open_stream().unwrap();
    client.stream_send(&mut c_sio, id, b"never sent", true).unwrap();
    client.state = ConnectionState::Closed;
    let next = client.next_pn;
    let mut buf = [0xA5u8; 2048];
    assert!(client.poll_transmit(&mut c_sio, &mut buf, 6, &mut pool).is_none());
    assert!(buf.iter().all(|b| *b == 0xA5));
    assert_eq!(client.next_pn, next);
    assert_eq!(c_sio.send_queue.len(), 1);
}
