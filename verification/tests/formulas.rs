use milli_http::connection::recv_pn::RecvPnTracker;
use milli_http::crypto::key_schedule::{derive_tls_record_keys, expand_label};
use milli_http::crypto::{build_nonce, Hkdf};
use milli_http::error::Error;
use milli_http::frame::{
    encode, AckFrame, ConnectionCloseFrame, CryptoFrame, EcnCounts, Frame, MaxStreamDataFrame,
    StreamFrame,
};
use milli_http::packet::{
    encode_handshake_header, encode_initial_header, encode_pn, encode_short_header, pn_length,
};
use milli_http::transport::congestion::CongestionController;
use milli_http::transport::flow_control::{FlowControl, RecvWindow};

/// Gives back what it is asked to expand.
struct Echo;

impl Hkdf for Echo {
    fn expand(&self, prk: &[u8], info: &[u8], okm: &mut [u8]) -> Result<(), Error> {
        if prk.is_empty() {
            return Err(Error::Crypto);
        }
        for (i, b) in okm.iter_mut().enumerate() {
            *b = if i < info.len() { info[i] } else { prk[0] };
        }
        Ok(())
    }
}

fn encoded(f: &Frame) -> Vec<u8> {
    let mut buf = [0u8; 64];
    let n = encode(f, &mut buf).unwrap();
    buf[..n].to_vec()
}

#[test]
fn nonce_is_the_iv_with_the_number_in_its_tail() {
    let iv = [0x11u8; 12];
    assert_eq!(build_nonce(&iv, 0), iv);
    assert_eq!(
        build_nonce(&iv, 0x0102_0304_0506_0708),
        [0x11, 0x11, 0x11, 0x11, 0x10, 0x13, 0x12, 0x15, 0x14, 0x17, 0x16, 0x19]
    );
}

#[test]
fn labels() {
    let mut out = [0u8; 16];
    expand_label(&Echo, &[9; 32], b"quic ku", &mut out).unwrap();
    assert_eq!(&out, b"\x00\x10\x0dtls13 quic ku");
    let mut key = [0u8; 13];
    let mut iv = [0u8; 12];
    derive_tls_record_keys(&Echo, &[9; 32], &mut key, &mut iv).unwrap();
    assert_eq!(&key, b"\x00\x0d\x09tls13 key\x00");
    assert_eq!(&iv, b"\x00\x0c\x08tls13 iv\x00");
    assert_eq!(
        derive_tls_record_keys(&Echo, &[], &mut key, &mut iv),
        Err(Error::Crypto)
    );
}

#[test]
fn packet_number_lengths() {
    assert_eq!(pn_length(0, 0), 1);
    assert_eq!(pn_length(127, 0), 1);
    assert_eq!(pn_length(128, 0), 2);
    assert_eq!(pn_length(0x7fff, 0), 2);
    assert_eq!(pn_length(0x8000, 0), 3);
    assert_eq!(pn_length(0x80_0000, 0), 4);
    assert_eq!(pn_length(1000, 999), 1);
    assert_eq!(pn_length(5, 9), 1);
    let mut out = [0u8; 4];
    assert_eq!(encode_pn(0x0001_0203, 0, &mut out), Ok(3));
    assert_eq!(&out[..3], &[1, 2, 3]);
    assert_eq!(
        encode_pn(0x8000, 0, &mut out[..2]),
        Err(Error::BufferTooSmall { needed: 3 })
    );
}

#[test]
fn headers_byte_for_byte() {
    let mut out = [0u8; 32];
    let n = encode_initial_header(&[1, 2], &[3], &[], 2, 300, &mut out).unwrap();
    assert_eq!(&out[..n], &[0xc1, 0, 0, 0, 1, 2, 1, 2, 1, 3, 0, 0x41, 0x2c]);
    let n = encode_handshake_header(&[1, 2], &[], 4, 40, &mut out).unwrap();
    assert_eq!(&out[..n], &[0xe3, 0, 0, 0, 1, 2, 1, 2, 0, 0x28]);
    let n = encode_short_header(&[7, 8, 9], 0x44, &mut out).unwrap();
    assert_eq!(&out[..n], &[0x44, 7, 8, 9]);
    assert_eq!(
        encode_short_header(&[7, 8, 9], 0x44, &mut out[..3]),
        Err(Error::BufferTooSmall { needed: 4 })
    );
}

#[test]
fn frames_byte_for_byte() {
    assert_eq!(
        encoded(&Frame::Crypto(CryptoFrame { offset: 64, data: b"ab" })),
        b"\x06\x40\x40\x02ab"
    );
    for (offset, fin, bytes) in [
        (0u64, false, &b"\x0a\x04\x01x"[..]),
        (0, true, b"\x0b\x04\x01x"),
        (5, false, b"\x0e\x04\x05\x01x"),
        (5, true, b"\x0f\x04\x05\x01x"),
    ] {
        let f = Frame::Stream(StreamFrame { stream_id: 4, offset, data: b"x", fin });
        assert_eq!(encoded(&f), bytes);
    }
    assert_eq!(encoded(&Frame::MaxData(100)), b"\x10\x40\x64");
    assert_eq!(
        encoded(&Frame::MaxStreamData(MaxStreamDataFrame { stream_id: 4, max_data: 9 })),
        b"\x11\x04\x09"
    );
    assert_eq!(
        encoded(&Frame::PathResponse([1, 2, 3, 4, 5, 6, 7, 8])),
        b"\x1b\x01\x02\x03\x04\x05\x06\x07\x08"
    );
    assert_eq!(encoded(&Frame::HandshakeDone), b"\x1e");
    assert_eq!(
        encoded(&Frame::ConnectionClose(ConnectionCloseFrame {
            is_application: false,
            error_code: 1,
            frame_type: 6,
            reason: b"no",
        })),
        b"\x1c\x01\x06\x02no"
    );
    assert_eq!(
        encoded(&Frame::ConnectionClose(ConnectionCloseFrame {
            is_application: true,
            error_code: 1,
            frame_type: 6,
            reason: b"no",
        })),
        b"\x1d\x01\x02no"
    );
    assert_eq!(
        encoded(&Frame::Ack(AckFrame {
            largest_ack: 9,
            ack_delay: 0,
            first_ack_range: 2,
            ack_ranges: &[1, 3],
            ecn: Some(EcnCounts { ect0: 1, ect1: 2, ce: 3 }),
        })),
        b"\x03\x09\x00\x01\x02\x01\x03\x01\x02\x03"
    );
}

#[test]
fn frames_that_cannot_be_written() {
    let mut buf = [0u8; 4];
    let f = Frame::Crypto(CryptoFrame { offset: 0, data: b"too long" });
    assert!(encode(&f, &mut buf).is_err());
    assert!(encode(&Frame::MaxData(1 << 62), &mut buf).is_err());
}

#[test]
fn congestion_window_moves() {
    let mut c = CongestionController::new();
    assert_eq!(c.cwnd(), 12000);
    c.on_packet_sent(5000);
    assert_eq!(c.available_window(), 7000);
    c.on_packet_sent(9000);
    assert_eq!(c.available_window(), 0);
    c.on_packet_acked(5000);
    assert_eq!(c.cwnd(), 17000);
    assert_eq!(c.available_window(), 8000);
}

#[test]
fn windows_are_renewed_once_half_is_used() {
    let mut f = FlowControl::new(1000);
    assert_eq!(f.should_send_max_data(), None);
    f.recv.consumed = 499;
    assert_eq!(f.should_send_max_data(), None);
    f.recv.consumed = 500;
    assert_eq!(f.should_send_max_data(), Some(1500));
    f.max_data_sent();
    assert_eq!(f.recv, RecvWindow { limit: 1500, consumed: 500, size: 1000 });
    assert_eq!(f.should_send_max_data(), None);
}

#[test]
fn received_numbers_join_and_the_oldest_go() {
    let mut t = RecvPnTracker::new();
    for pn in [5, 3, 4, 9, 3] {
        t.track(pn);
    }
    assert_eq!(t.ranges, vec![(3, 5), (9, 9)]);
    t.track(8);
    t.track(6);
    t.track(7);
    assert_eq!(t.ranges, vec![(3, 9)]);
    for i in 0..40u64 {
        t.track(100 + 2 * i);
    }
    assert_eq!(t.ranges.len(), 32);
    assert_eq!(t.ranges[31], (178, 178));
}

#[test]
fn only_the_lowest_range_is_forgotten() {
    let mut t = RecvPnTracker::new();
    t.track(10);
    t.track(11);
    for i in 1..32u64 {
        t.track(10 + 10 * i);
    }
    assert_eq!(t.ranges.len(), 32);
    let full = t.ranges.clone();
    // A number next to a range needs none of its own.
    t.track(9);
    assert_eq!(t.ranges[0], (9, 11));
    assert_eq!(t.ranges[1..], full[1..]);
    // A number in a gap does, and the lowest range goes whole.
    t.track(25);
    assert_eq!(t.ranges.len(), 32);
    assert_eq!(t.ranges[..3], [(20, 20), (25, 25), (30, 30)]);
    assert_eq!(t.ranges[31], (320, 320));
    // A number below all ranges is the lowest itself.
    let before = t.ranges.clone();
    t.track(3);
    assert_eq!(t.ranges, before);
}

#[test]
fn congestion_avoidance_grows_by_a_packet_per_window() {
    let mut c = CongestionController {
        window: 12000,
        threshold: 12000,
        in_flight: 24000,
    };
    c.on_packet_acked(100);
    assert_eq!(c.cwnd(), 12010);
    c.on_packet_acked(12010);
    assert_eq!(c.cwnd(), 13210);
    assert_eq!(c.in_flight, 11890);
    c.on_packet_acked(5);
    assert_eq!(c.cwnd(), 13210);
}
