use dual::connection::{ConnectionState, PeerAddr};
use dual::endpoint::{check_outgoing_size, EndpointState, SendRejection, DEFAULT_ENDPOINT_TIMEOUT_US};
use dual::protocol::{PacketHeader, PacketType, CHANNEL_UNRELIABLE, MAX_PACKET_SIZE};
use dual::tracking::AckedPacket;

#[test]
fn outgoing_size_limit_is_the_mtu() {
    assert_eq!(check_outgoing_size(MAX_PACKET_SIZE), Ok(()));
    assert_eq!(check_outgoing_size(MAX_PACKET_SIZE + 1), Err(SendRejection::ExceedsMtu));
    assert_eq!(check_outgoing_size(0), Ok(()));
}

#[test]
fn new_endpoint_is_disconnected() {
    let e = EndpointState::new(5);
    assert_eq!(e.state(), ConnectionState::Disconnected);
    assert!(e.remote_addr().is_none());
    assert_eq!(e.counters().packets_sent, 0);
    assert!(!e.is_timed_out(5 + DEFAULT_ENDPOINT_TIMEOUT_US));
    assert!(e.is_timed_out(6 + DEFAULT_ENDPOINT_TIMEOUT_US));
}

#[test]
fn create_packet_numbers_and_acks() {
    let mut e = EndpointState::new(0);
    let p0 = e.create_packet(PacketType::Disconnect);
    let p1 = e.create_packet(PacketType::Disconnect);
    assert_eq!(p0.header.sequence, 0);
    assert_eq!(p1.header.sequence, 1);
    assert_eq!(p1.header.channel, CHANNEL_UNRELIABLE);
    assert_eq!((p1.header.ack, p1.header.ack_bitfield), (0, 0));
}

#[test]
fn accepted_packet_acks_sent_ones_and_counts() {
    let mut e = EndpointState::new(0);
    e.record_sent(0, 40, 100);
    e.record_sent(1, 60, 200);
    assert_eq!(e.counters().packets_sent, 2);
    assert_eq!(e.counters().bytes_sent, 100);
    let incoming = PacketHeader::new(7, 1, 0b1, CHANNEL_UNRELIABLE, 0);
    let acked = e.accept_incoming(30, Some(incoming), 1_000).unwrap();
    assert_eq!(acked, vec![AckedPacket { sequence: 0, rtt_us: 900 }, AckedPacket { sequence: 1, rtt_us: 800 }]);
    assert_eq!(e.counters().packets_received, 1);
    assert_eq!(e.counters().bytes_received, 30);
    let next = e.create_packet(PacketType::Disconnect);
    assert_eq!(next.header.ack, 7);
}

#[test]
fn short_foreign_and_duplicate_datagrams_are_dropped() {
    let mut e = EndpointState::new(0);
    let h = PacketHeader::new(3, 0, 0, CHANNEL_UNRELIABLE, 0);
    assert!(e.accept_incoming(4, Some(h), 1).is_none());
    assert!(e.accept_incoming(20, None, 1).is_none());
    let mut foreign = h;
    foreign.magic = 0;
    assert!(e.accept_incoming(20, Some(foreign), 1).is_none());
    assert!(e.accept_incoming(20, Some(h), 1).is_some());
    assert!(e.accept_incoming(20, Some(h), 2).is_none());
    assert_eq!(e.counters().packets_received, 1);
}

#[test]
fn server_mode_skips_duplicate_filter() {
    let mut e = EndpointState::new(0);
    e.set_server_mode(true);
    let h = PacketHeader::new(3, 0, 0, CHANNEL_UNRELIABLE, 0);
    assert!(e.accept_incoming(20, Some(h), 1).is_some());
    assert!(e.accept_incoming(20, Some(h), 2).is_some());
    assert_eq!(e.counters().packets_received, 2);
}

#[test]
fn reset_keeps_remote_and_clears_the_rest() {
    let mut e = EndpointState::new(0);
    let a = PeerAddr { ip: 1, port: 2, is_v6: true };
    e.set_remote(a);
    e.set_state(ConnectionState::Connected);
    e.set_timeout(50);
    e.create_packet(PacketType::Disconnect);
    e.record_sent(0, 10, 0);
    e.reset(1_000);
    assert_eq!(e.remote_addr(), Some(a));
    assert_eq!(e.state(), ConnectionState::Disconnected);
    assert_eq!(e.counters().packets_sent, 0);
    assert_eq!(e.create_packet(PacketType::Disconnect).header.sequence, 0);
    assert!(!e.is_timed_out(1_050));
    assert!(e.is_timed_out(1_051));
}
