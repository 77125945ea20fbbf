use dual::connection::{ClientConnection, ConnectionManager, ConnectionState, PeerAddr, Reliability};
use dual::protocol::{Packet, PacketType, CHANNEL_ORDERED, CHANNEL_RELIABLE, CHANNEL_UNRELIABLE};

fn addr(port: u16) -> PeerAddr {
    PeerAddr { ip: 0x7f00_0001, port, is_v6: false }
}

fn ping(t: u64) -> PacketType {
    PacketType::Ping { timestamp: t }
}

fn ping_value(p: &PacketType) -> u64 {
    match p {
        PacketType::Ping { timestamp } => *timestamp,
        other => panic!("unexpected payload {:?}", other),
    }
}

fn pair() -> (ClientConnection, ClientConnection) {
    (ClientConnection::new(addr(1), 1, 11, 0), ClientConnection::new(addr(2), 2, 22, 0))
}

#[test]
fn new_connection_is_connecting() {
    let c = ClientConnection::new(addr(9), 4, 0xF0, 77);
    assert_eq!(c.state, ConnectionState::Connecting);
    assert_eq!(c.client_id, 4);
    assert_eq!(c.client_salt, 0xF0);
    assert_eq!(c.last_receive_time_us, 77);
    assert_eq!(c.combined_salt(), 0xF0 ^ c.server_salt);
    assert!(c.entity_id.is_none());
}

#[test]
fn timeout_is_strict() {
    let mut c = ClientConnection::new(addr(9), 4, 0, 1_000);
    assert!(!c.is_timed_out(1_500, 500));
    assert!(c.is_timed_out(1_501, 500));
    assert!(!c.is_timed_out(10, 500));
    c.touch(5_000);
    assert_eq!(c.last_receive_time_us, 5_000);
    assert!(!c.is_timed_out(5_400, 500));
}

#[test]
fn send_packet_numbers_channels() {
    let (mut a, _) = pair();
    let p0 = a.send_packet(ping(1), Reliability::Unreliable, 0);
    let p1 = a.send_packet(ping(2), Reliability::Reliable, 0);
    let p2 = a.send_packet(ping(3), Reliability::Reliable, 0);
    let p3 = a.send_packet(ping(4), Reliability::Ordered, 0);
    assert_eq!((p0.header.sequence, p0.header.channel, p0.header.channel_seq), (0, CHANNEL_UNRELIABLE, 0));
    assert_eq!((p1.header.sequence, p1.header.channel, p1.header.channel_seq), (1, CHANNEL_RELIABLE, 0));
    assert_eq!((p2.header.sequence, p2.header.channel, p2.header.channel_seq), (2, CHANNEL_RELIABLE, 1));
    assert_eq!((p3.header.sequence, p3.header.channel, p3.header.channel_seq), (3, CHANNEL_ORDERED, 0));
    assert_eq!(a.send_sequence, 4);
}

#[test]
fn unreliable_passes_through_once_per_wire_sequence() {
    let (mut a, mut b) = pair();
    let p = a.send_packet(ping(7), Reliability::Unreliable, 0);
    let out = b.process_packet(p.clone(), 10);
    assert_eq!(out.len(), 1);
    assert_eq!(ping_value(&out[0]), 7);
    assert_eq!(b.last_receive_time_us, 10);
    assert!(b.process_packet(p, 20).is_empty());
}

#[test]
fn ordered_messages_are_delivered_in_order() {
    let (mut a, mut b) = pair();
    let m0 = a.send_packet(ping(100), Reliability::Ordered, 0);
    let m1 = a.send_packet(ping(101), Reliability::Ordered, 0);
    let m2 = a.send_packet(ping(102), Reliability::Ordered, 0);
    assert!(b.process_packet(m2, 1).is_empty());
    assert!(b.process_packet(m1, 2).is_empty());
    let out = b.process_packet(m0, 3);
    let values: Vec<u64> = out.iter().map(ping_value).collect();
    assert_eq!(values, vec![100, 101, 102]);
}

#[test]
fn reliable_resend_is_delivered_once() {
    let (mut a, mut b) = pair();
    let first = a.send_packet(ping(5), Reliability::Reliable, 0);
    assert!(a.collect_resends(500, 1_000).is_empty());
    let resent = a.collect_resends(2_000, 1_000);
    assert_eq!(resent.len(), 1);
    assert_eq!(resent[0].header.channel, CHANNEL_RELIABLE);
    assert_eq!(resent[0].header.channel_seq, first.header.channel_seq);
    assert_ne!(resent[0].header.sequence, first.header.sequence);
    // just resent: not due again yet
    assert!(a.collect_resends(2_500, 1_000).is_empty());
    assert_eq!(b.process_packet(first, 10).len(), 1);
    let again: Vec<Packet> = resent;
    for p in again {
        assert!(b.process_packet(p, 20).is_empty());
    }
}

#[test]
fn acknowledged_reliable_message_is_not_resent() {
    let (mut a, mut b) = pair();
    let msg = a.send_packet(ping(5), Reliability::Reliable, 0);
    b.process_packet(msg, 1);
    let reply = b.send_packet(ping(6), Reliability::Unreliable, 2);
    assert_eq!(reply.header.ack, 0);
    assert_eq!(a.process_packet(reply, 3).len(), 1);
    assert!(a.collect_resends(1_000_000, 1_000).is_empty());
}

#[test]
fn manager_creates_and_finds_connections() {
    let mut m = ConnectionManager::new(2);
    let id1 = m.get_or_create_pending(addr(1), 5, 0).unwrap().client_id;
    let id2 = m.get_or_create_pending(addr(2), 6, 0).unwrap().client_id;
    assert_eq!((id1, id2), (1, 2));
    // an existing address gives back its connection
    assert_eq!(m.get_or_create_pending(addr(1), 99, 0).unwrap().client_salt, 5);
    assert_eq!(m.get_or_create_pending(addr(3), 7, 0).err(), Some("Server full"));
    assert_eq!(m.total_count(), 2);
    assert_eq!(m.connected_count(), 0);
    m.get_mut(id2).unwrap().state = ConnectionState::Connected;
    assert_eq!(m.connected_count(), 1);
    assert_eq!(m.get_by_addr(&addr(2)).unwrap().client_id, id2);
    assert!(m.get_by_addr(&addr(3)).is_none());
    assert_eq!(m.get(id1).unwrap().addr, addr(1));
    assert_eq!(m.iter().len(), 2);
}

#[test]
fn manager_removes_by_id_and_address() {
    let mut m = ConnectionManager::new(4);
    let id1 = m.get_or_create_pending(addr(1), 0, 0).unwrap().client_id;
    m.get_or_create_pending(addr(2), 0, 0).unwrap();
    assert_eq!(m.remove(id1).unwrap().addr, addr(1));
    assert!(m.remove(id1).is_none());
    assert!(m.get_by_addr(&addr(1)).is_none());
    assert_eq!(m.remove_by_addr(&addr(2)).unwrap().addr.port, 2);
    assert_eq!(m.total_count(), 0);
    let id3 = m.get_or_create_pending(addr(1), 0, 0).unwrap().client_id;
    assert_eq!(id3, 3);
}

#[test]
fn cleanup_removes_idle_connections() {
    let mut m = ConnectionManager::with_timeout(4, 2);
    let old_id = m.get_or_create_pending(addr(1), 0, 0).unwrap().client_id;
    let fresh_id = m.get_or_create_pending(addr(2), 0, 1_500_000).unwrap().client_id;
    let removed = m.cleanup_timed_out(2_500_000);
    assert_eq!(removed, vec![old_id]);
    assert!(m.get(old_id).is_none());
    assert!(m.get(fresh_id).is_some());
    assert!(m.cleanup_timed_out(3_500_000).is_empty());
}

#[test]
fn acknowledged_round_trips_are_kept_for_smoothing() {
    let (mut a, mut b) = pair();
    let msg = a.send_packet(ping(5), Reliability::Reliable, 1_000);
    b.process_packet(msg, 1_500);
    let reply = b.send_packet(ping(6), Reliability::Unreliable, 2_000);
    assert!(a.rtt_samples.is_empty());
    a.process_packet(reply, 4_000);
    assert_eq!(a.rtt_samples.len(), 1);
    assert_eq!(a.rtt_samples[0].sequence, 0);
    assert_eq!(a.rtt_samples[0].rtt_us, 3_000);
}
