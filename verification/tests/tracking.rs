use dual::tracking::{AckTracker, AckedPacket, ReceiveTracker};

#[test]
fn test_receive_tracker_bitfield() {
    let mut tracker = ReceiveTracker::new();

    tracker.record_received(1);
    tracker.record_received(2);
    tracker.record_received(3);

    let (ack, bitfield) = tracker.ack_data();
    assert_eq!(ack, 3);
    assert_eq!(bitfield & 0b11, 0b11);
}

#[test]
fn test_receive_tracker_out_of_order() {
    let mut tracker = ReceiveTracker::new();

    tracker.record_received(3);
    tracker.record_received(1);
    tracker.record_received(2);

    let (ack, bitfield) = tracker.ack_data();
    assert_eq!(ack, 3);
    assert_eq!(bitfield & 0b11, 0b11);
}

#[test]
fn test_duplicate_detection() {
    let mut tracker = ReceiveTracker::new();

    assert!(tracker.record_received(1));
    assert!(!tracker.record_received(1));
    assert!(tracker.record_received(2));
}

#[test]
fn fresh_tracker_acks_nothing() {
    let tracker = ReceiveTracker::new();
    assert_eq!(tracker.ack_data(), (0, 0));
}

#[test]
fn newer_sequence_shifts_bitfield() {
    let mut tracker = ReceiveTracker::new();
    assert!(tracker.record_received(5));
    // 5 is 5 ahead of 0: bitfield 0 << 5 | 1
    assert_eq!(tracker.ack_data(), (5, 1));
    assert!(tracker.record_received(7));
    assert_eq!(tracker.ack_data(), (7, 0b101));
    assert!(tracker.record_received(6));
    assert_eq!(tracker.ack_data(), (7, 0b101 | 0b1));
}

#[test]
fn jump_beyond_window_clears_bitfield() {
    let mut tracker = ReceiveTracker::new();
    tracker.record_received(1);
    tracker.record_received(100);
    assert_eq!(tracker.ack_data(), (100, 0));
}

#[test]
fn can_record_excludes_a_jump_of_exactly_thirty_two() {
    let tracker = ReceiveTracker::new();
    assert!(tracker.can_record(31));
    assert!(!tracker.can_record(32));
    assert!(tracker.can_record(33));
}

#[test]
fn ack_tracker_acks_by_number_and_bitfield() {
    let mut tracker = AckTracker::new(32);
    tracker.track_packet(1, 1_000);
    tracker.track_packet(2, 2_000);
    tracker.track_packet(3, 3_000);
    assert_eq!(tracker.unacked_count(), 3);
    // ack 3, bit 1 set => 3 - 2 = 1 also acked; 2 not
    let acked = tracker.process_ack(3, 0b10, 10_000);
    assert_eq!(
        acked,
        vec![AckedPacket { sequence: 1, rtt_us: 9_000 }, AckedPacket { sequence: 3, rtt_us: 7_000 }]
    );
    assert_eq!(tracker.unacked_count(), 1);
    // a repeated ack acknowledges nothing new
    let again = tracker.process_ack(3, 0b10, 11_000);
    assert!(again.is_empty());
    let last = tracker.process_ack(2, 0, 12_000);
    assert_eq!(last, vec![AckedPacket { sequence: 2, rtt_us: 10_000 }]);
    assert_eq!(tracker.unacked_count(), 0);
}

#[test]
fn ack_tracker_forgets_oldest_when_full() {
    let mut tracker = AckTracker::new(2);
    tracker.track_packet(1, 0);
    tracker.track_packet(2, 0);
    tracker.track_packet(3, 0);
    assert_eq!(tracker.unacked_count(), 2);
    assert!(tracker.process_ack(1, 0, 5).is_empty());
    assert_eq!(tracker.process_ack(3, 0b1, 5).len(), 2);
}

#[test]
fn rtt_is_zero_when_clock_went_backwards() {
    let mut tracker = AckTracker::new(4);
    tracker.track_packet(9, 500);
    assert_eq!(tracker.process_ack(9, 0, 100), vec![AckedPacket { sequence: 9, rtt_us: 0 }]);
}
