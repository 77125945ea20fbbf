use dual::connection::{ConnectionState, PeerAddr};
use dual::protocol::{ClientCommand, PacketHeader, PacketType, CHANNEL_RELIABLE, CHANNEL_UNRELIABLE};
use dual::server::{DisconnectReason, ServerCore, ServerEvent};
use dual::session::ClientSession;

fn addr(port: u16) -> PeerAddr {
    PeerAddr { ip: 0x0a00_0001, port, is_v6: false }
}

fn challenge_of(core: &ServerCore) -> u64 {
    match core.outbox.last().unwrap().packet.payload {
        PacketType::ConnectionChallenge { challenge, .. } => challenge,
        ref other => panic!("expected a challenge, got {:?}", other),
    }
}

fn connect(core: &mut ServerCore, a: PeerAddr, salt: u64, entity: u32) -> u32 {
    assert_eq!(core.handle_payload(PacketType::ConnectionRequest { client_salt: salt }, a, 0), None);
    let challenge = challenge_of(core);
    let id = core.handle_payload(PacketType::ChallengeResponse { combined_salt: challenge }, a, 0).unwrap();
    core.complete_connection(id, entity, 0);
    id
}

#[test]
fn handshake_connects_and_reports() {
    let mut core = ServerCore::new(4, 128);
    let a = addr(1);
    core.handle_connection_request(a, 0xABCD, 10);
    assert!(matches!(core.pending_events[0], ServerEvent::ClientConnecting { .. }));
    let out = &core.outbox[0];
    assert_eq!(out.addr, a);
    assert_eq!(out.packet.header.channel, CHANNEL_RELIABLE);
    let (server_salt, challenge) = match out.packet.payload {
        PacketType::ConnectionChallenge { server_salt, challenge } => (server_salt, challenge),
        _ => panic!("no challenge"),
    };
    assert_eq!(challenge, 0xABCD ^ server_salt);
    let id = core.handle_challenge_response(a, challenge).unwrap();
    assert_eq!(id, 1);
    assert_eq!(core.connections.get(id).unwrap().state, ConnectionState::Connected);
    core.complete_connection(id, 77, 20);
    assert_eq!(core.connections.get(id).unwrap().entity_id, Some(77));
    match core.pending_events.last().unwrap() {
        ServerEvent::ClientConnected { client_id, addr: at, entity_id } => {
            assert_eq!((*client_id, *at, *entity_id), (1, a, 77));
        }
        other => panic!("unexpected {:?}", other),
    }
    assert!(matches!(
        core.outbox.last().unwrap().packet.payload,
        PacketType::ConnectionAccepted { client_id: 1, entity_id: 77, tick_rate: 128 }
    ));
}

#[test]
fn wrong_challenge_is_reported_and_ignored() {
    let mut core = ServerCore::new(4, 60);
    let a = addr(2);
    core.handle_connection_request(a, 5, 0);
    let challenge = challenge_of(&core);
    assert_eq!(core.handle_challenge_response(a, challenge ^ 1), None);
    assert!(matches!(core.pending_events.last().unwrap(), ServerEvent::InvalidChallengeResponse { .. }));
    assert_eq!(core.connections.get_by_addr(&a).unwrap().state, ConnectionState::Connecting);
    assert_eq!(core.handle_challenge_response(addr(99), challenge), None);
}

#[test]
fn full_server_denies_with_reason() {
    let mut core = ServerCore::new(1, 60);
    core.handle_connection_request(addr(1), 1, 0);
    core.handle_connection_request(addr(2), 2, 0);
    let denied = core.outbox.last().unwrap();
    assert_eq!(denied.addr, addr(2));
    assert_eq!(denied.packet.header, PacketHeader::new(0, 0, 0, CHANNEL_UNRELIABLE, 0));
    match &denied.packet.payload {
        PacketType::ConnectionDenied { reason } => assert_eq!(reason, "Server full"),
        other => panic!("unexpected {:?}", other),
    }
    match core.pending_events.last().unwrap() {
        ServerEvent::ConnectionDenied { addr: at, reason } => {
            assert_eq!(*at, addr(2));
            assert_eq!(reason, "Server full");
        }
        other => panic!("unexpected {:?}", other),
    }
    assert_eq!(core.connections.total_count(), 1);
}

#[test]
fn repeated_request_challenges_the_same_connection() {
    let mut core = ServerCore::new(4, 60);
    core.handle_connection_request(addr(1), 9, 0);
    let first = challenge_of(&core);
    core.handle_connection_request(addr(1), 1234, 0);
    assert_eq!(challenge_of(&core), first);
    assert_eq!(core.connections.total_count(), 1);
}

#[test]
fn commands_are_queued_only_for_connected_clients() {
    let mut core = ServerCore::new(4, 60);
    core.handle_connection_request(addr(1), 1, 0);
    core.handle_client_input(addr(1), vec![ClientCommand::new(1, 1)]);
    assert!(core.command_queue.is_empty());
    let mut other = ServerCore::new(4, 60);
    let id = connect(&mut other, addr(3), 3, 30);
    other.handle_client_input(addr(3), vec![ClientCommand::new(4, 1), ClientCommand::new(5, 2)]);
    assert_eq!(other.command_queue.len(), 2);
    assert_eq!(other.command_queue[0].client_id, id);
    assert_eq!(other.command_queue[0].command.tick, 4);
    assert_eq!(other.command_queue[1].command.tick, 5);
    other.handle_client_input(addr(8), vec![ClientCommand::new(6, 3)]);
    assert_eq!(other.command_queue.len(), 2);
}

#[test]
fn ping_is_answered_with_pong() {
    let mut core = ServerCore::new(4, 60);
    connect(&mut core, addr(1), 1, 10);
    let before = core.outbox.len();
    core.handle_ping(addr(1), 4242, 5);
    assert_eq!(core.outbox.len(), before + 1);
    let pong = core.outbox.last().unwrap();
    assert_eq!(pong.packet.header.channel, CHANNEL_UNRELIABLE);
    assert!(matches!(pong.packet.payload, PacketType::Pong { timestamp: 4242 }));
    core.handle_ping(addr(2), 1, 5);
    assert_eq!(core.outbox.len(), before + 1);
}

#[test]
fn snapshot_ack_only_moves_forward() {
    let mut core = ServerCore::new(4, 60);
    let id = connect(&mut core, addr(1), 1, 10);
    core.handle_snapshot_ack(addr(1), 50);
    core.handle_snapshot_ack(addr(1), 40);
    assert_eq!(core.connections.get(id).unwrap().last_acked_tick, 50);
}

#[test]
fn goodbye_removes_client_and_entity() {
    let mut core = ServerCore::new(4, 60);
    let id = connect(&mut core, addr(1), 1, 10);
    core.handle_payload(PacketType::Disconnect, addr(1), 0);
    assert!(core.connections.get(id).is_none());
    assert_eq!(core.despawned, vec![10]);
    assert!(matches!(
        core.pending_events.last().unwrap(),
        ServerEvent::ClientDisconnected { client_id: 1, reason: DisconnectReason::Graceful }
    ));
}

#[test]
fn kick_sends_disconnect_and_removes() {
    let mut core = ServerCore::new(4, 60);
    let id = connect(&mut core, addr(1), 1, 10);
    core.kick_client(id, 0);
    let last = core.outbox.last().unwrap();
    assert_eq!(last.addr, addr(1));
    assert_eq!(last.packet.header.channel, CHANNEL_RELIABLE);
    assert!(matches!(last.packet.payload, PacketType::Disconnect));
    assert!(core.connections.get(id).is_none());
    assert_eq!(core.despawned, vec![10]);
    assert!(matches!(
        core.pending_events.last().unwrap(),
        ServerEvent::ClientDisconnected { client_id: 1, reason: DisconnectReason::Kicked }
    ));
    let n = core.outbox.len();
    core.kick_client(id, 0);
    assert_eq!(core.outbox.len(), n);
}

#[test]
fn shutdown_kicks_everyone_in_order() {
    let mut core = ServerCore::new(4, 60);
    let a = connect(&mut core, addr(1), 1, 10);
    core.handle_connection_request(addr(2), 2, 0);
    let b = core.connections.get_by_addr(&addr(2)).unwrap().client_id;
    core.outbox.clear();
    core.pending_events.clear();
    core.shutdown_connections(0);
    assert_eq!(core.connections.total_count(), 0);
    assert_eq!(core.outbox.len(), 2);
    assert_eq!(core.outbox[0].addr, addr(1));
    assert_eq!(core.outbox[1].addr, addr(2));
    assert_eq!(core.despawned, vec![10]);
    let ids: Vec<u32> = core
        .pending_events
        .iter()
        .map(|e| match e {
            ServerEvent::ClientDisconnected { client_id, .. } => *client_id,
            other => panic!("unexpected {:?}", other),
        })
        .collect();
    assert_eq!(ids, vec![a, b]);
}

#[test]
fn strangers_only_get_through_with_a_request() {
    let mut core = ServerCore::new(4, 60);
    let header = PacketHeader::new(0, 0, 0, CHANNEL_UNRELIABLE, 0);
    let ping = dual::protocol::Packet::new(header, PacketType::Ping { timestamp: 1 });
    assert!(core.receive_packet(ping, addr(1), 0).is_empty());
    let req = dual::protocol::Packet::new(header, PacketType::ConnectionRequest { client_salt: 3 });
    let got = core.receive_packet(req, addr(1), 0);
    assert_eq!(got.len(), 1);
    assert!(matches!(got[0], PacketType::ConnectionRequest { client_salt: 3 }));
}

#[test]
fn known_client_packets_pass_through_its_connection() {
    let mut core = ServerCore::new(4, 60);
    connect(&mut core, addr(1), 1, 10);
    let header = PacketHeader::new(0, 0, 0, CHANNEL_UNRELIABLE, 0);
    let p = dual::protocol::Packet::new(header, PacketType::Ping { timestamp: 9 });
    let got = core.receive_packet(p.clone(), addr(1), 100);
    assert_eq!(got.len(), 1);
    assert_eq!(core.connections.get_by_addr(&addr(1)).unwrap().last_receive_time_us, 100);
    // the same wire sequence again is a duplicate
    assert!(core.receive_packet(p, addr(1), 200).is_empty());
}

#[test]
fn resends_go_to_their_clients() {
    let mut core = ServerCore::new(4, 60);
    core.handle_connection_request(addr(1), 1, 0);
    core.handle_connection_request(addr(2), 2, 0);
    core.outbox.clear();
    core.process_resends(500, &[1_000, 1_000]);
    assert!(core.outbox.is_empty());
    core.process_resends(5_000, &[1_000, 1_000]);
    assert_eq!(core.outbox.len(), 2);
    assert_eq!(core.outbox[0].addr, addr(1));
    assert_eq!(core.outbox[1].addr, addr(2));
    assert!(matches!(core.outbox[0].packet.payload, PacketType::ConnectionChallenge { .. }));
    // just resent: not due again yet
    core.process_resends(5_500, &[1_000, 1_000]);
    assert_eq!(core.outbox.len(), 2);
}

#[test]
fn each_client_resends_on_its_own_timeout() {
    let mut core = ServerCore::new(4, 60);
    core.handle_connection_request(addr(1), 1, 0);
    core.handle_connection_request(addr(2), 2, 0);
    core.outbox.clear();
    core.process_resends(2_000, &[1_000, 5_000]);
    assert_eq!(core.outbox.len(), 1);
    assert_eq!(core.outbox[0].addr, addr(1));
}

#[test]
fn client_and_server_complete_a_handshake() {
    let server_addr = addr(100);
    let client_addr = addr(7);
    let mut core = ServerCore::new(4, 64);
    let mut session = ClientSession::new(server_addr, 0x1234, 0);
    let request = session.connect(server_addr, 0);
    assert_eq!(session.state, ConnectionState::Connecting);
    for p in core.receive_packet(request, client_addr, 1) {
        assert_eq!(core.handle_payload(p, client_addr, 1), None);
    }
    let challenge = core.outbox.remove(0).packet;
    let mut reply = None;
    for p in session.connection.process_packet(challenge, 2) {
        reply = session.handle_payload(p, 2, 0);
    }
    assert_eq!(session.state, ConnectionState::ChallengeResponse);
    let reply = reply.expect("a matching challenge is answered");
    let mut spawned = None;
    for p in core.receive_packet(reply, client_addr, 3) {
        if let Some(id) = core.handle_payload(p, client_addr, 3) {
            spawned = Some(id);
        }
    }
    let id = spawned.expect("the handshake connects");
    core.complete_connection(id, 42, 4);
    let accepted = core.outbox.remove(0).packet;
    for p in session.connection.process_packet(accepted, 5) {
        assert!(session.handle_payload(p, 5, 0).is_none());
    }
    assert_eq!(session.state, ConnectionState::Connected);
    assert_eq!(session.client_id, Some(id));
    assert_eq!(session.entity_id, Some(42));
}

#[test]
fn client_ignores_a_forged_challenge_and_resets_on_denial() {
    let mut session = ClientSession::new(addr(1), 5, 0);
    session.connect(addr(1), 0);
    let forged = PacketType::ConnectionChallenge { server_salt: 9, challenge: 0 };
    assert!(session.handle_payload(forged, 1, 77).is_none());
    assert_eq!(session.server_salt, Some(9));
    assert_eq!(session.state, ConnectionState::ChallengeResponse);
    assert!(session.handshake_timed_out(1_000_001, 1_000_000));
    let denied = PacketType::ConnectionDenied { reason: "Server full".to_string() };
    assert!(session.handle_payload(denied, 2, 77).is_none());
    assert_eq!(session.state, ConnectionState::Disconnected);
    assert_eq!(session.client_salt, 77);
    assert!(session.server_salt.is_none());
    assert!(!session.handshake_timed_out(u64::MAX, 0));
}
