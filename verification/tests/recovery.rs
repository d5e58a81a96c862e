use milli_http::crypto::Level;
use milli_http::transport::recovery::{SentPacket, SentPacketTracker};
use milli_http::Instant;

fn make_pkt(pn: u64, level: Level, time_sent: Instant, size: u16) -> SentPacket {
    SentPacket {
        pn,
        level,
        time_sent,
        size,
        ack_eliciting: true,
        in_flight: true,
    }
}

/// Dense storage uses `swap_remove`, which reorders entries. Verify that
/// across several partial acks the *exact* set of remaining packets is
/// preserved (no loss or duplication from the reordering).
#[test]
fn dense_partial_acks_preserve_set() {
    let mut tracker = SentPacketTracker::<32>::new();
    for pn in 0..10u64 {
        tracker
            .on_packet_sent(make_pkt(pn, Level::Application, pn * 10, 100))
            .unwrap();
    }
    // Ack a scattered middle range: largest=7, first_range=2 -> {5,6,7}.
    let r = tracker.on_ack_received(Level::Application, 7, 2, &[]);
    assert_eq!(r.newly_acked.len(), 3);
    assert_eq!(tracker.count(), 7);

    // Remaining must be exactly {0,1,2,3,4,8,9}.
    let mut remaining: heapless::Vec<u64, 32> = tracker
        .sent_below_pn(Level::Application, u64::MAX)
        .into_iter()
        .map(|p| p.pn)
        .collect();
    remaining.sort_unstable();
    assert_eq!(remaining.as_slice(), &[0, 1, 2, 3, 4, 8, 9]);

    // Ack the rest and confirm the tracker drains exactly.
    let r2 = tracker.on_ack_received(Level::Application, 9, 9, &[]);
    assert_eq!(r2.newly_acked.len(), 7);
    assert_eq!(tracker.count(), 0);
}

#[test]
fn track_and_ack_packets() {
    let mut tracker = SentPacketTracker::<16>::new();
    assert_eq!(tracker.count(), 0);

    tracker
        .on_packet_sent(make_pkt(0, Level::Initial, 100, 1200))
        .unwrap();
    tracker
        .on_packet_sent(make_pkt(1, Level::Initial, 200, 1200))
        .unwrap();
    tracker
        .on_packet_sent(make_pkt(2, Level::Initial, 300, 1200))
        .unwrap();
    assert_eq!(tracker.count(), 3);

    // ACK packets 0-2
    let result = tracker.on_ack_received(Level::Initial, 2, 2, &[]);
    assert_eq!(result.newly_acked.len(), 3);
    assert_eq!(result.largest_newly_acked.unwrap().pn, 2);
    assert_eq!(tracker.count(), 0);
}

#[test]
fn ack_with_gaps() {
    let mut tracker = SentPacketTracker::<16>::new();
    for pn in 0..6 {
        tracker
            .on_packet_sent(make_pkt(pn, Level::Application, pn * 100, 100))
            .unwrap();
    }
    assert_eq!(tracker.count(), 6);

    // ACK largest=5, first_range=0 (acks just 5),
    // then gap=1, range=1 (acks 2-3)
    // gap means: skip (gap+1) packets below the previous range's smallest.
    // Previous smallest = 5. gap=1 => skip 2 PNs (4 and 3... no, let's recalculate).
    // Actually: previous smallest = 5 (largest_ack - first_ack_range = 5 - 0 = 5).
    // gap=1 means range_largest = 5 - 1 - 2 = 2, range_smallest = 2 - 1 = 1.
    // So this ACKs: {5} and {1, 2}
    let result = tracker.on_ack_received(Level::Application, 5, 0, &[(1, 1)]);
    assert_eq!(result.newly_acked.len(), 3);
    let acked_pns: heapless::Vec<u64, 32> = result.newly_acked.iter().map(|p| p.pn).collect();
    assert!(acked_pns.contains(&5));
    assert!(acked_pns.contains(&1));
    assert!(acked_pns.contains(&2));
    assert_eq!(tracker.count(), 3); // 0, 3, 4 remain
}

#[test]
fn capacity_limit() {
    let mut tracker = SentPacketTracker::<4>::new();
    for pn in 0..4 {
        tracker
            .on_packet_sent(make_pkt(pn, Level::Initial, pn * 100, 100))
            .unwrap();
    }
    let err = tracker.on_packet_sent(make_pkt(4, Level::Initial, 400, 100));
    assert!(err.is_err());
}

#[test]
fn sent_before_filtering() {
    let mut tracker = SentPacketTracker::<16>::new();
    tracker
        .on_packet_sent(make_pkt(0, Level::Initial, 100, 100))
        .unwrap();
    tracker
        .on_packet_sent(make_pkt(1, Level::Initial, 200, 100))
        .unwrap();
    tracker
        .on_packet_sent(make_pkt(2, Level::Initial, 300, 100))
        .unwrap();

    let before_250: Vec<SentPacket> = tracker.sent_before(Level::Initial, 250);
    assert_eq!(before_250.len(), 2);
    assert!(before_250.iter().all(|p| p.time_sent < 250));
}

#[test]
fn sent_below_pn_filtering() {
    let mut tracker = SentPacketTracker::<16>::new();
    tracker
        .on_packet_sent(make_pkt(0, Level::Application, 100, 100))
        .unwrap();
    tracker
        .on_packet_sent(make_pkt(1, Level::Application, 200, 100))
        .unwrap();
    tracker
        .on_packet_sent(make_pkt(5, Level::Application, 300, 100))
        .unwrap();

    let below_3: Vec<SentPacket> = tracker.sent_below_pn(Level::Application, 3);
    assert_eq!(below_3.len(), 2);
}

#[test]
fn drop_space_removes_all() {
    let mut tracker = SentPacketTracker::<16>::new();
    tracker
        .on_packet_sent(make_pkt(0, Level::Initial, 100, 100))
        .unwrap();
    tracker
        .on_packet_sent(make_pkt(1, Level::Handshake, 200, 100))
        .unwrap();
    tracker
        .on_packet_sent(make_pkt(2, Level::Application, 300, 100))
        .unwrap();
    assert_eq!(tracker.count(), 3);

    tracker.drop_space(Level::Initial);
    assert_eq!(tracker.count(), 2);
    assert!(!tracker.has_ack_eliciting_in_flight(Level::Initial));
    assert!(tracker.has_ack_eliciting_in_flight(Level::Handshake));
}

#[test]
fn has_ack_eliciting_in_flight_correctness() {
    let mut tracker = SentPacketTracker::<16>::new();
    assert!(!tracker.has_ack_eliciting_in_flight(Level::Initial));

    tracker
        .on_packet_sent(make_pkt(0, Level::Initial, 100, 100))
        .unwrap();
    assert!(tracker.has_ack_eliciting_in_flight(Level::Initial));
    assert!(!tracker.has_ack_eliciting_in_flight(Level::Handshake));

    // Add a non-ack-eliciting packet
    let mut non_ae = make_pkt(1, Level::Handshake, 200, 100);
    non_ae.ack_eliciting = false;
    tracker.on_packet_sent(non_ae).unwrap();
    assert!(!tracker.has_ack_eliciting_in_flight(Level::Handshake));
}

#[test]
fn remove_packet() {
    let mut tracker = SentPacketTracker::<16>::new();
    tracker
        .on_packet_sent(make_pkt(0, Level::Initial, 100, 100))
        .unwrap();
    tracker
        .on_packet_sent(make_pkt(1, Level::Initial, 200, 100))
        .unwrap();

    let removed = tracker.remove(Level::Initial, 0);
    assert!(removed.is_some());
    assert_eq!(removed.unwrap().pn, 0);
    assert_eq!(tracker.count(), 1);

    // Removing again returns None
    assert!(tracker.remove(Level::Initial, 0).is_none());
}

#[test]
fn ack_wrong_level_is_noop() {
    let mut tracker = SentPacketTracker::<16>::new();
    tracker
        .on_packet_sent(make_pkt(0, Level::Initial, 100, 100))
        .unwrap();

    let result = tracker.on_ack_received(Level::Application, 0, 0, &[]);
    assert_eq!(result.newly_acked.len(), 0);
    assert_eq!(tracker.count(), 1);
}

#[test]
fn ack_twice_changes_nothing_the_second_time() {
    let mut tracker = SentPacketTracker::<16>::new();
    for pn in 0..3 {
        tracker
            .on_packet_sent(make_pkt(pn, Level::Initial, 100, 50))
            .unwrap();
    }
    let first = tracker.on_ack_received(Level::Initial, 1, 1, &[]);
    assert_eq!(first.newly_acked.len(), 2);
    assert_eq!(tracker.count(), 1);
    let second = tracker.on_ack_received(Level::Initial, 1, 1, &[]);
    assert_eq!(second.newly_acked.len(), 0);
    assert!(second.largest_newly_acked.is_none());
    assert_eq!(tracker.count(), 1);
}

#[test]
fn ack_of_more_than_the_list_holds_still_removes_all() {
    let mut tracker = SentPacketTracker::<64>::new();
    for pn in 0..40 {
        tracker
            .on_packet_sent(make_pkt(pn, Level::Application, 100, 50))
            .unwrap();
    }
    let result = tracker.on_ack_received(Level::Application, 39, 39, &[]);
    assert_eq!(result.newly_acked.len(), 32);
    assert_eq!(result.largest_newly_acked.unwrap().pn, 39);
    assert_eq!(tracker.count(), 0);
}

#[test]
fn ack_ranges_below_zero_end_the_walk() {
    let mut tracker = SentPacketTracker::<16>::new();
    for pn in 0..4 {
        tracker
            .on_packet_sent(make_pkt(pn, Level::Application, 100, 50))
            .unwrap();
    }
    let result = tracker.on_ack_received(Level::Application, 3, 0, &[(7, 1), (0, 0)]);
    assert_eq!(result.newly_acked.len(), 1);
    assert_eq!(result.newly_acked[0].pn, 3);
    assert_eq!(tracker.count(), 3);
}

#[test]
fn last_packet_fills_the_place_of_a_removed_one() {
    let mut tracker = SentPacketTracker::<16>::new();
    for pn in 0..10u64 {
        tracker
            .on_packet_sent(make_pkt(pn, Level::Application, pn, 100))
            .unwrap();
    }
    let r = tracker.on_ack_received(Level::Application, 7, 2, &[]);
    let listed: Vec<u64> = r.newly_acked.iter().map(|p| p.pn).collect();
    assert_eq!(listed, vec![5, 6, 7]);
    assert_eq!(r.largest_newly_acked.map(|p| p.pn), Some(7));

    assert_eq!(tracker.remove(Level::Application, 1).map(|p| p.pn), Some(1));
    let stored: Vec<u64> = tracker
        .sent_below_pn(Level::Application, 100)
        .into_iter()
        .map(|p| p.pn)
        .collect();
    assert_eq!(stored, vec![0, 8, 2, 3, 4, 9]);

    let r = tracker.on_ack_received(Level::Application, 9, 9, &[]);
    let listed: Vec<u64> = r.newly_acked.iter().map(|p| p.pn).collect();
    assert_eq!(listed, vec![0, 9, 4, 3, 2, 8]);
    assert_eq!(r.largest_newly_acked.map(|p| p.pn), Some(9));
}
