use dual::connection::PeerAddr;
use dual::delay::{DelayQueue, NetworkSimulator};
use dual::protocol::{Packet, PacketHeader, PacketType, CHANNEL_UNRELIABLE};

#[test]
fn delay_queue_releases_in_time_order() {
    let mut q = DelayQueue::new();
    q.push(30, 'c');
    q.push(10, 'a');
    q.push(20, 'b');
    q.push(10, 'd');
    assert_eq!(q.len(), 4);
    assert!(q.take_due(5).is_empty());
    assert_eq!(q.take_due(10), vec!['a', 'd']);
    assert_eq!(q.take_due(25), vec!['b']);
    assert!(!q.is_empty());
    assert_eq!(q.take_due(u64::MAX), vec!['c']);
    assert!(q.is_empty());
}

fn packet(ts: u64) -> Packet {
    Packet::new(PacketHeader::new(0, 0, 0, CHANNEL_UNRELIABLE, 0), PacketType::Ping { timestamp: ts })
}

#[test]
fn simulator_holds_packets_for_their_delay() {
    let a = PeerAddr { ip: 1, port: 1, is_v6: false };
    let mut sim = NetworkSimulator::new();
    sim.enqueue_inbound(packet(1), a, 1_000, 500);
    sim.enqueue_inbound(packet(2), a, 1_000, 0);
    sim.enqueue_outbound(packet(3), a, 1_000, u64::MAX);
    let now = sim.take_inbound(1_000);
    assert_eq!(now.len(), 1);
    assert!(matches!(now[0].0.payload, PacketType::Ping { timestamp: 2 }));
    assert!(sim.take_inbound(1_499).is_empty());
    assert_eq!(sim.take_inbound(1_500).len(), 1);
    assert!(sim.take_outbound(1_000_000).is_empty());
    assert_eq!(sim.take_outbound(u64::MAX).len(), 1);
}
