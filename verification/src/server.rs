use vstd::prelude::*;

use crate::connection::{
    after_receive, after_send, index_of_addr, index_of_id, is_fresh, lemma_index_of_addr,
    lemma_index_of_id, resent, ClientConnection, ConnectionManager, ConnectionState, PeerAddr,
    Reliability,
};
use crate::protocol::{
    ClientCommand, Packet, PacketHeader, PacketType, CHANNEL_RELIABLE, CHANNEL_UNRELIABLE,
};

verus! {

/// Why a client left the server.
#[derive(Debug, Clone, Copy, PartialEq, Eq, Structural)]
pub enum DisconnectReason {
    /// The client said goodbye.
    Graceful,
    /// The server removed the client.
    Kicked,
}

/// What the server reports to the application hosting it.
#[derive(Debug, Clone)]
pub enum ServerEvent {
    ClientConnecting { addr: PeerAddr },
    ClientConnected { client_id: u32, addr: PeerAddr, entity_id: u32 },
    ClientDisconnected { client_id: u32, reason: DisconnectReason },
    ConnectionDenied { addr: PeerAddr, reason: String },
    /// A challenge response that did not match the expected salt.
    InvalidChallengeResponse { addr: PeerAddr },
    /// A failure outside the server's decisions, such as a send that failed.
    Error { message: String },
}

/// A command received from a connected client, waiting for the simulation.
#[derive(Debug, Clone, Copy)]
pub struct QueuedCommand {
    pub client_id: u32,
    pub command: ClientCommand,
}

/// A packet the server decided to send, with its destination.
#[derive(Debug)]
pub struct OutgoingPacket {
    pub addr: PeerAddr,
    pub packet: Packet,
}

/// The connection-handling core of the game server: it answers handshakes,
/// pings, acknowledgements and disconnects, queues client commands, and
/// collects what must go out. The caller owns the socket and the game world:
/// it sends `outbox`, spawns an entity when asked to, despawns the entities
/// listed in `despawned`, and reads `pending_events`.
#[derive(Debug)]
pub struct ServerCore {
    pub connections: ConnectionManager,
    pub tick_rate: u32,
    pub pending_events: Vec<ServerEvent>,
    pub command_queue: Vec<QueuedCommand>,
    pub outbox: Vec<OutgoingPacket>,
    pub despawned: Vec<u32>,
}

/// `after` keeps `before`'s settings and the limits of its connection table.
pub open spec fn same_setup(before: ServerCore, after: ServerCore) -> bool {
    &&& after.tick_rate == before.tick_rate
    &&& after.connections.capacity() == before.connections.capacity()
    &&& after.connections.timeout() == before.connections.timeout()
}

/// `after` has the connection table of `before`.
pub open spec fn same_connections(before: ServerCore, after: ServerCore) -> bool {
    &&& after.connections.clients() == before.connections.clients()
    &&& after.connections.next_id() == before.connections.next_id()
}

/// `after` has the event list, command queue, outbox and despawn list of `before`.
pub open spec fn same_queues(before: ServerCore, after: ServerCore) -> bool {
    &&& after.pending_events@ == before.pending_events@
    &&& after.command_queue@ == before.command_queue@
    &&& after.outbox@ == before.outbox@
    &&& after.despawned@ == before.despawned@
}

/// `after` holds `before`'s outbox followed by one packet for `addr`.
pub open spec fn one_more_outgoing(before: ServerCore, after: ServerCore, addr: PeerAddr) -> bool {
    &&& after.outbox@.len() == before.outbox@.len() + 1
    &&& after.outbox@.drop_last() == before.outbox@
    &&& after.outbox@.last().addr == addr
}

/// The connection at `i` changed and the others did not; the next id too.
pub open spec fn one_connection_changed(before: ServerCore, after: ServerCore, i: int) -> bool {
    &&& after.connections.clients().len() == before.connections.clients().len()
    &&& after.connections.clients() == before.connections.clients().update(
        i,
        after.connections.clients()[i],
    )
    &&& after.connections.next_id() == before.connections.next_id()
}

/// The despawn list after `entity` (if any) was removed from the world.
pub open spec fn despawn_after(list: Seq<u32>, entity: Option<u32>) -> Seq<u32> {
    match entity {
        Some(e) => list.push(e),
        None => list,
    }
}

/// The header of a reliable packet that `c` sends next.
pub open spec fn next_reliable_header(c: ClientConnection) -> PacketHeader {
    PacketHeader::spec_new(
        c.send_sequence,
        c.receive_tracker.last(),
        c.receive_tracker.bitfield(),
        CHANNEL_RELIABLE,
        c.channels.next_reliable(),
    )
}

/// Answering a ping from `addr`: a known client answers with an unreliable
/// pong carrying the same timestamp.
pub open spec fn ping_step(before: ServerCore, after: ServerCore, addr: PeerAddr, timestamp: u64, now_us: u64) -> bool {
    let cs = before.connections.clients();
    &&& same_setup(before, after)
    &&& after.pending_events@ == before.pending_events@
    &&& after.command_queue@ == before.command_queue@
    &&& after.despawned@ == before.despawned@
    &&& match index_of_addr(cs, addr) {
        Some(i) => {
            &&& one_connection_changed(before, after, i)
            &&& one_more_outgoing(before, after, addr)
            &&& after_send(
                cs[i],
                after.connections.clients()[i],
                PacketType::Pong { timestamp },
                Reliability::Unreliable,
                now_us,
                after.outbox@.last().packet,
            )
        },
        None => same_connections(before, after) && after.outbox@ == before.outbox@,
    }
}

/// Commands from a connected client are queued in order under its id;
/// commands from anyone else are ignored.
pub open spec fn client_input_step(before: ServerCore, after: ServerCore, addr: PeerAddr, commands: Seq<ClientCommand>) -> bool {
    let cs = before.connections.clients();
    &&& same_setup(before, after)
    &&& same_connections(before, after)
    &&& after.pending_events@ == before.pending_events@
    &&& after.outbox@ == before.outbox@
    &&& after.despawned@ == before.despawned@
    &&& after.command_queue@ == match index_of_addr(cs, addr) {
        Some(i) => if cs[i].state == ConnectionState::Connected {
            before.command_queue@ + commands.map_values(
                |c: ClientCommand| QueuedCommand { client_id: cs[i].client_id, command: c },
            )
        } else {
            before.command_queue@
        },
        None => before.command_queue@,
    }
}

/// A goodbye from a known client removes it, releases its entity and reports
/// a graceful disconnect.
pub open spec fn disconnect_step(before: ServerCore, after: ServerCore, addr: PeerAddr) -> bool {
    let cs = before.connections.clients();
    &&& same_setup(before, after)
    &&& after.command_queue@ == before.command_queue@
    &&& after.outbox@ == before.outbox@
    &&& match index_of_addr(cs, addr) {
        Some(i) => {
            &&& after.connections.clients() == cs.remove(i)
            &&& after.connections.next_id() == before.connections.next_id()
            &&& after.despawned@ == despawn_after(before.despawned@, cs[i].entity_id)
            &&& after.pending_events@ == before.pending_events@.push(
                ServerEvent::ClientDisconnected {
                    client_id: cs[i].client_id,
                    reason: DisconnectReason::Graceful,
                },
            )
        },
        None => same_connections(before, after) && after.pending_events@ == before.pending_events@
            && after.despawned@ == before.despawned@,
    }
}

/// A challenge response from a known client either matches its combined
/// salt, which connects the client and asks for an entity to be spawned for
/// it, or is reported as invalid; responses from strangers are ignored.
pub open spec fn challenge_response_step(
    before: ServerCore,
    after: ServerCore,
    addr: PeerAddr,
    combined_salt: u64,
    spawn: Option<u32>,
) -> bool {
    let cs = before.connections.clients();
    &&& same_setup(before, after)
    &&& after.command_queue@ == before.command_queue@
    &&& after.outbox@ == before.outbox@
    &&& after.despawned@ == before.despawned@
    &&& match index_of_addr(cs, addr) {
        Some(i) => if combined_salt == cs[i].client_salt ^ cs[i].server_salt {
            &&& spawn == Some(cs[i].client_id)
            &&& one_connection_changed(before, after, i)
            &&& after.connections.clients()[i] == (ClientConnection {
                state: ConnectionState::Connected,
                ..cs[i]
            })
            &&& after.pending_events@ == before.pending_events@
        } else {
            &&& spawn is None
            &&& same_connections(before, after)
            &&& after.pending_events@ == before.pending_events@.push(
                ServerEvent::InvalidChallengeResponse { addr },
            )
        },
        None => spawn is None && same_connections(before, after) && after.pending_events@
            == before.pending_events@,
    }
}

/// Finishing a handshake once the client's entity exists: the entity is
/// recorded, a connected event is reported and the client is told its id,
/// entity and the tick rate in a reliable packet.
pub open spec fn completion_step(before: ServerCore, after: ServerCore, client_id: u32, entity_id: u32, now_us: u64) -> bool {
    let cs = before.connections.clients();
    &&& same_setup(before, after)
    &&& after.command_queue@ == before.command_queue@
    &&& after.despawned@ == before.despawned@
    &&& match index_of_id(cs, client_id) {
        Some(i) => {
            &&& one_connection_changed(before, after, i)
            &&& one_more_outgoing(before, after, cs[i].addr)
            &&& after_send(
                ClientConnection { entity_id: Some(entity_id), ..cs[i] },
                after.connections.clients()[i],
                PacketType::ConnectionAccepted {
                    client_id,
                    entity_id,
                    tick_rate: before.tick_rate,
                },
                Reliability::Reliable,
                now_us,
                after.outbox@.last().packet,
            )
            &&& after.pending_events@ == before.pending_events@.push(
                ServerEvent::ClientConnected { client_id, addr: cs[i].addr, entity_id },
            )
        },
        None => same_connections(before, after) && same_queues(before, after),
    }
}

/// The challenge a connection sends: its server salt and the combined salt.
pub open spec fn challenge_for(c: ClientConnection) -> PacketType {
    PacketType::ConnectionChallenge {
        server_salt: c.server_salt,
        challenge: c.client_salt ^ c.server_salt,
    }
}

/// Answering a connection request: it is always reported; a known address is
/// challenged again, a new one gets a fresh connection that is challenged,
/// and when the server is full the request is denied with "Server full".
pub open spec fn connection_request_step(
    before: ServerCore,
    after: ServerCore,
    addr: PeerAddr,
    client_salt: u64,
    now_us: u64,
) -> bool {
    let cs = before.connections.clients();
    let sent = after.outbox@.last();
    let n = before.pending_events@.len();
    &&& same_setup(before, after)
    &&& after.command_queue@ == before.command_queue@
    &&& after.despawned@ == before.despawned@
    &&& one_more_outgoing(before, after, addr)
    &&& after.pending_events@.len() >= n + 1
    &&& after.pending_events@.take(n as int) == before.pending_events@
    &&& after.pending_events@[n as int] == (ServerEvent::ClientConnecting { addr })
    &&& match index_of_addr(cs, addr) {
        Some(i) => {
            &&& one_connection_changed(before, after, i)
            &&& after_send(
                cs[i],
                after.connections.clients()[i],
                challenge_for(cs[i]),
                Reliability::Reliable,
                now_us,
                sent.packet,
            )
            &&& after.pending_events@.len() == n + 1
        },
        None => if cs.len() >= before.connections.capacity() {
            &&& same_connections(before, after)
            &&& sent.packet.header == PacketHeader::spec_new(0, 0, 0, CHANNEL_UNRELIABLE, 0)
            &&& sent.packet.payload matches PacketType::ConnectionDenied { reason } && reason@
                == "Server full"@
            &&& after.pending_events@.len() == n + 2
            &&& after.pending_events@[n + 1int] matches ServerEvent::ConnectionDenied { addr: a, reason }
                && a == addr && reason@ == "Server full"@
        } else {
            let c = after.connections.clients().last();
            &&& after.connections.clients().len() == cs.len() + 1
            &&& after.connections.clients().drop_last() == cs
            &&& after.connections.next_id() == before.connections.next_id() + 1
            &&& exists|c0: ClientConnection|
                is_fresh(c0, addr, before.connections.next_id(), client_salt, now_us) && after_send(
                    c0,
                    c,
                    #[trigger] challenge_for(c0),
                    Reliability::Reliable,
                    now_us,
                    sent.packet,
                )
            &&& after.pending_events@.len() == n + 1
        },
    }
}

/// A newer snapshot acknowledgement from a known client is remembered.
pub open spec fn snapshot_ack_step(before: ServerCore, after: ServerCore, addr: PeerAddr, received_tick: u32) -> bool {
    let cs = before.connections.clients();
    &&& same_setup(before, after)
    &&& same_queues(before, after)
    &&& match index_of_addr(cs, addr) {
        Some(i) => if received_tick > cs[i].last_acked_tick {
            &&& one_connection_changed(before, after, i)
            &&& after.connections.clients()[i] == (ClientConnection {
                last_acked_tick: received_tick,
                ..cs[i]
            })
        } else {
            same_connections(before, after)
        },
        None => same_connections(before, after),
    }
}

/// The disconnect packet a kicked client is sent.
pub open spec fn kicked_packet(c: ClientConnection) -> OutgoingPacket {
    OutgoingPacket {
        addr: c.addr,
        packet: Packet { header: next_reliable_header(c), payload: PacketType::Disconnect },
    }
}

/// The event reported for a kicked client.
pub open spec fn kicked_event(c: ClientConnection) -> ServerEvent {
    ServerEvent::ClientDisconnected { client_id: c.client_id, reason: DisconnectReason::Kicked }
}

/// Removing client `client_id`: it is sent a reliable disconnect, dropped,
/// its entity released and a kick reported.
pub open spec fn kick_step(before: ServerCore, after: ServerCore, client_id: u32) -> bool {
    let cs = before.connections.clients();
    &&& same_setup(before, after)
    &&& after.command_queue@ == before.command_queue@
    &&& match index_of_id(cs, client_id) {
        Some(i) => {
            &&& after.connections.clients() == cs.remove(i)
            &&& after.connections.next_id() == before.connections.next_id()
            &&& after.outbox@ == before.outbox@.push(kicked_packet(cs[i]))
            &&& after.despawned@ == despawn_after(before.despawned@, cs[i].entity_id)
            &&& after.pending_events@ == before.pending_events@.push(kicked_event(cs[i]))
        },
        None => same_connections(before, after) && same_queues(before, after),
    }
}

/// Disconnect packets for each of `cs`, in order.
pub open spec fn kicked_packets(cs: Seq<ClientConnection>) -> Seq<OutgoingPacket> {
    cs.map_values(|c: ClientConnection| kicked_packet(c))
}

/// Kick events for each of `cs`, in order.
pub open spec fn kicked_events(cs: Seq<ClientConnection>) -> Seq<ServerEvent> {
    cs.map_values(|c: ClientConnection| kicked_event(c))
}

/// The entities of `cs`, in order.
pub open spec fn entities_of(cs: Seq<ClientConnection>) -> Seq<u32>
    decreases cs.len(),
{
    if cs.len() == 0 {
        Seq::empty()
    } else {
        despawn_after(entities_of(cs.drop_last()), cs.last().entity_id)
    }
}

/// Packet `p` addressed to `addr`.
pub open spec fn to_addr(addr: PeerAddr) -> spec_fn(Packet) -> OutgoingPacket {
    |p: Packet| OutgoingPacket { addr, packet: p }
}

/// The resends `outs[i]` of each connection `cs[i]`, addressed, in order.
pub open spec fn addressed(cs: Seq<ClientConnection>, outs: Seq<Seq<Packet>>) -> Seq<OutgoingPacket>
    decreases cs.len(),
{
    if cs.len() == 0 || outs.len() == 0 {
        Seq::empty()
    } else {
        addressed(cs.drop_last(), outs.drop_last()) + outs.last().map_values(to_addr(cs.last().addr))
    }
}

/// What handling one payload from `addr` does to the server, by kind; other
/// kinds are ignored.
pub open spec fn payload_step(
    before: ServerCore,
    after: ServerCore,
    payload: PacketType,
    addr: PeerAddr,
    now_us: u64,
    spawn: Option<u32>,
) -> bool {
    match payload {
        PacketType::ConnectionRequest { client_salt } => spawn is None && connection_request_step(
            before,
            after,
            addr,
            client_salt,
            now_us,
        ),
        PacketType::ChallengeResponse { combined_salt } => challenge_response_step(
            before,
            after,
            addr,
            combined_salt,
            spawn,
        ),
        PacketType::ClientInput(commands) => spawn is None && client_input_step(
            before,
            after,
            addr,
            commands@,
        ),
        PacketType::Ping { timestamp } => spawn is None && ping_step(
            before,
            after,
            addr,
            timestamp,
            now_us,
        ),
        PacketType::SnapshotAck { received_tick } => spawn is None && snapshot_ack_step(
            before,
            after,
            addr,
            received_tick,
        ),
        PacketType::Disconnect => spawn is None && disconnect_step(before, after, addr),
        _ => spawn is None && same_setup(before, after) && same_connections(before, after)
            && same_queues(before, after),
    }
}

impl ServerCore {
    pub open spec fn wf(&self) -> bool {
        self.connections.wf()
    }

    /// A server for at most `max_clients` clients, simulating at `tick_rate`.
    pub fn new(max_clients: usize, tick_rate: u32) -> (s: Self)
        ensures
            s.wf(),
            s.connections.clients() == Seq::<ClientConnection>::empty(),
            s.connections.next_id() == 1,
            s.connections.capacity() == max_clients,
            s.tick_rate == tick_rate,
            s.pending_events@ == Seq::<ServerEvent>::empty(),
            s.command_queue@ == Seq::<QueuedCommand>::empty(),
            s.outbox@ == Seq::<OutgoingPacket>::empty(),
            s.despawned@ == Seq::<u32>::empty(),
    {
        ServerCore {
            connections: ConnectionManager::new(max_clients),
            tick_rate,
            pending_events: Vec::new(),
            command_queue: Vec::new(),
            outbox: Vec::new(),
            despawned: Vec::new(),
        }
    }

    /// Answers a ping from a known client with a pong.
    pub fn handle_ping(&mut self, addr: PeerAddr, timestamp: u64, now_us: u64)
        requires
            old(self).wf(),
        ensures
            final(self).wf(),
            ping_step(*old(self), *final(self), addr, timestamp, now_us),
    {
        let ghost cs = self.connections.clients();
        proof {
            lemma_index_of_addr(cs, addr);
        }
        let r = self.connections.get_by_addr_mut(&addr);
        if r.is_some() {
            let client = r.unwrap();
            let packet = client.send_packet(PacketType::Pong { timestamp }, Reliability::Unreliable, now_us);
            self.outbox.push(OutgoingPacket { addr, packet });
        }
    }

    /// Queues the commands of a connected client.
    pub fn handle_client_input(&mut self, addr: PeerAddr, commands: Vec<ClientCommand>)
        requires
            old(self).wf(),
        ensures
            final(self).wf(),
            client_input_step(*old(self), *final(self), addr, commands@),
    {
        let (client_id, connected) = match self.connections.get_by_addr(&addr) {
            Some(client) => (client.client_id, client.state == ConnectionState::Connected),
            None => (0, false),
        };
        if !connected {
            return;
        }
        let ghost start = self.command_queue@;
        let mut k: usize = 0;
        while k < commands.len()
            invariant
                k <= commands@.len(),
                self.connections == old(self).connections,
                self.tick_rate == old(self).tick_rate,
                self.pending_events == old(self).pending_events,
                self.outbox == old(self).outbox,
                self.despawned == old(self).despawned,
                start == old(self).command_queue@,
                self.command_queue@ == start + commands@.take(k as int).map_values(
                    |c: ClientCommand| QueuedCommand { client_id, command: c },
                ),
            decreases commands@.len() - k,
        {
            self.command_queue.push(QueuedCommand { client_id, command: commands[k] });
            k += 1;
            assert(commands@.take(k as int).drop_last() =~= commands@.take(k - 1));
        }
        assert(commands@.take(k as int) =~= commands@);
    }

    /// Removes a client that said goodbye.
    pub fn handle_disconnect(&mut self, addr: PeerAddr)
        requires
            old(self).wf(),
        ensures
            final(self).wf(),
            disconnect_step(*old(self), *final(self), addr),
    {
        match self.connections.remove_by_addr(&addr) {
            Some(client) => {
                match client.entity_id {
                    Some(entity_id) => self.despawned.push(entity_id),
                    None => {},
                }
                self.pending_events.push(
                    ServerEvent::ClientDisconnected {
                        client_id: client.client_id,
                        reason: DisconnectReason::Graceful,
                    },
                );
            },
            None => {},
        }
    }

    /// Checks a challenge response. On a match the client is connected and its
    /// id returned: the caller spawns its entity and then calls
    /// [`ServerCore::complete_connection`].
    pub fn handle_challenge_response(&mut self, addr: PeerAddr, combined_salt: u64) -> (spawn: Option<u32>)
        requires
            old(self).wf(),
        ensures
            final(self).wf(),
            challenge_response_step(*old(self), *final(self), addr, combined_salt, spawn),
    {
        let ghost cs = self.connections.clients();
        proof {
            lemma_index_of_addr(cs, addr);
        }
        let expected = match self.connections.get_by_addr(&addr) {
            Some(client) => client.combined_salt(),
            None => {
                return None;
            },
        };
        if combined_salt != expected {
            self.pending_events.push(ServerEvent::InvalidChallengeResponse { addr });
            return None;
        }
        let r = self.connections.get_by_addr_mut(&addr);
        let client = r.unwrap();
        client.state = ConnectionState::Connected;
        Some(client.client_id)
    }

    /// Records the entity spawned for a freshly connected client, reports the
    /// connection and tells the client.
    pub fn complete_connection(&mut self, client_id: u32, entity_id: u32, now_us: u64)
        requires
            old(self).wf(),
        ensures
            final(self).wf(),
            completion_step(*old(self), *final(self), client_id, entity_id, now_us),
    {
        let ghost cs = self.connections.clients();
        proof {
            lemma_index_of_id(cs, client_id);
        }
        let tick_rate = self.tick_rate;
        let r = self.connections.get_mut(client_id);
        if r.is_some() {
            let client = r.unwrap();
            client.entity_id = Some(entity_id);
            let addr = client.addr;
            let packet = client.send_packet(
                PacketType::ConnectionAccepted { client_id, entity_id, tick_rate },
                Reliability::Reliable,
                now_us,
            );
            self.pending_events.push(ServerEvent::ClientConnected { client_id, addr, entity_id });
            self.outbox.push(OutgoingPacket { addr, packet });
        }
    }

    /// Answers a connection request with a challenge, or denies it when the
    /// server is full.
    pub fn handle_connection_request(&mut self, addr: PeerAddr, client_salt: u64, now_us: u64)
        requires
            old(self).wf(),
            index_of_addr(old(self).connections.clients(), addr) is None
                && old(self).connections.clients().len() < old(self).connections.capacity()
                ==> old(self).connections.next_id() < u32::MAX,
        ensures
            final(self).wf(),
            connection_request_step(*old(self), *final(self), addr, client_salt, now_us),
    {
        let ghost cs = self.connections.clients();
        proof {
            lemma_index_of_addr(cs, addr);
        }
        self.pending_events.push(ServerEvent::ClientConnecting { addr });
        let r = self.connections.get_or_create_pending(addr, client_salt, now_us);
        if r.is_ok() {
            let client = r.unwrap();
            let ghost c0 = *client;
            let server_salt = client.server_salt;
            let challenge = client.combined_salt();
            let packet = client.send_packet(
                PacketType::ConnectionChallenge { server_salt, challenge },
                Reliability::Reliable,
                now_us,
            );
            self.outbox.push(OutgoingPacket { addr, packet });
            proof {
                let n = old(self).pending_events@.len();
                assert(challenge_for(c0) == PacketType::ConnectionChallenge { server_salt, challenge });
                assert(self.outbox@.drop_last() =~= old(self).outbox@);
                assert(self.pending_events@.take(n as int) =~= old(self).pending_events@);
                match index_of_addr(cs, addr) {
                    Some(i) => {
                        assert(one_connection_changed(*old(self), *self, i));
                    },
                    None => {
                        assert(self.connections.clients().drop_last() == cs);
                        assert(is_fresh(c0, addr, old(self).connections.next_id(), client_salt, now_us));
                    },
                }
            }
        } else {
            let reason = r.unwrap_err();
            let header = PacketHeader::new(0, 0, 0, CHANNEL_UNRELIABLE, 0);
            let packet = Packet::new(header, PacketType::ConnectionDenied { reason: reason.to_owned() });
            self.outbox.push(OutgoingPacket { addr, packet });
            self.pending_events.push(ServerEvent::ConnectionDenied { addr, reason: reason.to_owned() });
            proof {
                let n = old(self).pending_events@.len();
                assert(self.outbox@.drop_last() =~= old(self).outbox@);
                assert(self.pending_events@.take(n as int) =~= old(self).pending_events@);
            }
        }
    }

    /// Sends `client_id` a disconnect, removes it and releases its entity.
    pub fn kick_client(&mut self, client_id: u32, now_us: u64)
        requires
            old(self).wf(),
        ensures
            final(self).wf(),
            kick_step(*old(self), *final(self), client_id),
    {
        let ghost cs = self.connections.clients();
        proof {
            lemma_index_of_id(cs, client_id);
        }
        let r = self.connections.get_mut(client_id);
        if r.is_some() {
            let client = r.unwrap();
            let addr = client.addr;
            let packet = client.send_packet(PacketType::Disconnect, Reliability::Reliable, now_us);
            self.outbox.push(OutgoingPacket { addr, packet });
        }
        let ghost cs1 = self.connections.clients();
        proof {
            lemma_index_of_id(cs1, client_id);
            if let Some(i) = index_of_id(cs, client_id) {
                assert(cs1.remove(i) =~= cs.remove(i));
                assert(index_of_id(cs1, client_id) == Some(i)) by {
                    if let Some(k) = index_of_id(cs1, client_id) {
                        if k < i {
                            assert(cs1[k] == cs[k]);
                        }
                    }
                }
            }
        }
        match self.connections.remove(client_id) {
            Some(client) => {
                match client.entity_id {
                    Some(entity_id) => self.despawned.push(entity_id),
                    None => {},
                }
                self.pending_events.push(
                    ServerEvent::ClientDisconnected {
                        client_id: client.client_id,
                        reason: DisconnectReason::Kicked,
                    },
                );
            },
            None => {},
        }
    }

    /// Kicks every client, in the order they connected.
    pub fn shutdown_connections(&mut self, now_us: u64)
        requires
            old(self).wf(),
        ensures
            final(self).wf(),
            same_setup(*old(self), *final(self)),
            final(self).connections.clients() == Seq::<ClientConnection>::empty(),
            final(self).connections.next_id() == old(self).connections.next_id(),
            final(self).command_queue@ == old(self).command_queue@,
            final(self).outbox@ == old(self).outbox@ + kicked_packets(
                old(self).connections.clients(),
            ),
            final(self).pending_events@ == old(self).pending_events@ + kicked_events(
                old(self).connections.clients(),
            ),
            final(self).despawned@ == old(self).despawned@ + entities_of(
                old(self).connections.clients(),
            ),
    {
        let ghost cs = self.connections.clients();
        let clients = self.connections.iter();
        let mut ids: Vec<u32> = Vec::new();
        let mut j: usize = 0;
        while j < clients.len()
            invariant
                clients@ == cs,
                j <= cs.len(),
                ids@.len() == j,
                forall|m: int| 0 <= m < j ==> ids@[m] == cs[m].client_id,
            decreases cs.len() - j,
        {
            ids.push(clients[j].client_id);
            j += 1;
        }
        let n = ids.len();
        let mut k: usize = 0;
        while k < n
            invariant
                n == cs.len(),
                n == ids@.len(),
                k <= n,
                forall|m: int| 0 <= m < n ==> ids@[m] == cs[m].client_id,
                self.wf(),
                same_setup(*old(self), *self),
                self.connections.clients() == cs.skip(k as int),
                self.connections.next_id() == old(self).connections.next_id(),
                self.command_queue@ == old(self).command_queue@,
                self.outbox@ == old(self).outbox@ + kicked_packets(cs.take(k as int)),
                self.pending_events@ == old(self).pending_events@ + kicked_events(cs.take(k as int)),
                self.despawned@ == old(self).despawned@ + entities_of(cs.take(k as int)),
            decreases n - k,
        {
            let ghost rest = self.connections.clients();
            proof {
                lemma_index_of_id(rest, ids@[k as int]);
                assert(rest[0] == cs[k as int]);
                if let Some(i) = index_of_id(rest, ids@[k as int]) {
                    if i > 0 {
                        assert(rest[0].client_id == ids@[k as int]);
                    }
                }
            }
            let id = ids[k];
            self.kick_client(id, now_us);
            proof {
                let t = cs.take(k + 1);
                assert(t.drop_last() =~= cs.take(k as int));
                assert(rest.remove(0) =~= cs.skip(k + 1));
                assert(kicked_packets(t) =~= kicked_packets(cs.take(k as int)).push(kicked_packet(cs[k as int])));
                assert(kicked_events(t) =~= kicked_events(cs.take(k as int)).push(kicked_event(cs[k as int])));
                assert(self.outbox@ =~= old(self).outbox@ + kicked_packets(t));
                assert(self.pending_events@ =~= old(self).pending_events@ + kicked_events(t));
                assert(entities_of(t) == despawn_after(entities_of(cs.take(k as int)), cs[k as int].entity_id));
                assert(self.despawned@ =~= old(self).despawned@ + entities_of(t));
            }
            k += 1;
        }
        proof {
            assert(cs.take(n as int) =~= cs);
            assert(cs.skip(n as int) =~= Seq::<ClientConnection>::empty());
        }
    }

    /// Passes a packet from `addr` through its connection and returns the
    /// payloads ready for [`ServerCore::handle_payload`]. Without a connection
    /// only a connection request gets through.
    pub fn receive_packet(&mut self, packet: Packet, addr: PeerAddr, now_us: u64) -> (payloads: Vec<PacketType>)
        requires
            old(self).wf(),
            index_of_addr(old(self).connections.clients(), addr) matches Some(i)
                ==> old(self).connections.clients()[i].receive_tracker.can_record_spec(
                packet.header.sequence,
            ),
        ensures
            final(self).wf(),
            same_setup(*old(self), *final(self)),
            same_queues(*old(self), *final(self)),
            ({
                let cs = old(self).connections.clients();
                match index_of_addr(cs, addr) {
                    Some(i) => {
                        &&& one_connection_changed(*old(self), *final(self), i)
                        &&& after_receive(cs[i], final(self).connections.clients()[i], packet, now_us, payloads@)
                    },
                    None => {
                        &&& same_connections(*old(self), *final(self))
                        &&& payloads@ == if packet.payload is ConnectionRequest {
                            seq![packet.payload]
                        } else {
                            Seq::<PacketType>::empty()
                        }
                    },
                }
            }),
    {
        let ghost cs = self.connections.clients();
        proof {
            lemma_index_of_addr(cs, addr);
        }
        let r = self.connections.get_by_addr_mut(&addr);
        if r.is_some() {
            let client = r.unwrap();
            client.process_packet(packet, now_us)
        } else {
            let payload = packet.payload;
            if matches!(payload, PacketType::ConnectionRequest { .. }) {
                vec![payload]
            } else {
                Vec::new()
            }
        }
    }

    /// Handles one payload from `addr`. Returns the id of a client whose
    /// handshake just succeeded: the caller spawns its entity and then calls
    /// [`ServerCore::complete_connection`].
    pub fn handle_payload(&mut self, payload: PacketType, addr: PeerAddr, now_us: u64) -> (spawn: Option<u32>)
        requires
            old(self).wf(),
            payload is ConnectionRequest ==> (index_of_addr(old(self).connections.clients(), addr) is None
                && old(self).connections.clients().len() < old(self).connections.capacity()
                ==> old(self).connections.next_id() < u32::MAX),
        ensures
            final(self).wf(),
            payload_step(*old(self), *final(self), payload, addr, now_us, spawn),
    {
        match payload {
            PacketType::ConnectionRequest { client_salt } => {
                self.handle_connection_request(addr, client_salt, now_us);
                None
            },
            PacketType::ChallengeResponse { combined_salt } => {
                self.handle_challenge_response(addr, combined_salt)
            },
            PacketType::ClientInput(commands) => {
                self.handle_client_input(addr, commands);
                None
            },
            PacketType::Ping { timestamp } => {
                self.handle_ping(addr, timestamp, now_us);
                None
            },
            PacketType::SnapshotAck { received_tick } => {
                self.handle_snapshot_ack(addr, received_tick);
                None
            },
            PacketType::Disconnect => {
                self.handle_disconnect(addr);
                None
            },
            _ => None,
        }
    }

    /// Resends, for every client in order, the reliable and ordered payloads
    /// not sent for more than that client's timeout: `timeouts_us[i]` for the
    /// `i`-th connection, which the caller derives from its round-trip time.
    pub fn process_resends(&mut self, now_us: u64, timeouts_us: &[u64])
        requires
            old(self).wf(),
            timeouts_us@.len() == old(self).connections.clients().len(),
        ensures
            final(self).wf(),
            same_setup(*old(self), *final(self)),
            final(self).connections.next_id() == old(self).connections.next_id(),
            final(self).pending_events@ == old(self).pending_events@,
            final(self).command_queue@ == old(self).command_queue@,
            final(self).despawned@ == old(self).despawned@,
            final(self).connections.clients().len() == old(self).connections.clients().len(),
            exists|outs: Seq<Seq<Packet>>|
                {
                    &&& outs.len() == old(self).connections.clients().len()
                    &&& forall|i: int|
                        0 <= i < outs.len() ==> resent(
                            old(self).connections.clients()[i],
                            final(self).connections.clients()[i],
                            now_us,
                            timeouts_us@[i],
                            #[trigger] outs[i],
                        )
                    &&& final(self).outbox@ == old(self).outbox@ + addressed(
                        old(self).connections.clients(),
                        outs,
                    )
                },
    {
        let ghost cs = self.connections.clients();
        let clients = self.connections.iter();
        let mut ids: Vec<u32> = Vec::new();
        let mut j: usize = 0;
        while j < clients.len()
            invariant
                clients@ == cs,
                j <= cs.len(),
                ids@.len() == j,
                forall|m: int| 0 <= m < j ==> ids@[m] == cs[m].client_id,
            decreases cs.len() - j,
        {
            ids.push(clients[j].client_id);
            j += 1;
        }
        let n = ids.len();
        let ghost mut outs: Seq<Seq<Packet>> = Seq::empty();
        let mut k: usize = 0;
        while k < n
            invariant
                n == cs.len(),
                n == ids@.len(),
                n == timeouts_us@.len(),
                k <= n,
                outs.len() == k,
                forall|m: int| 0 <= m < n ==> ids@[m] == cs[m].client_id,
                self.wf(),
                same_setup(*old(self), *self),
                self.connections.clients().len() == n,
                self.connections.next_id() == old(self).connections.next_id(),
                forall|m: int|
                    0 <= m < k ==> resent(
                        cs[m],
                        self.connections.clients()[m],
                        now_us,
                        timeouts_us@[m],
                        #[trigger] outs[m],
                    ),
                forall|m: int| k <= m < n ==> self.connections.clients()[m] == cs[m],
                self.pending_events@ == old(self).pending_events@,
                self.command_queue@ == old(self).command_queue@,
                self.despawned@ == old(self).despawned@,
                self.outbox@ == old(self).outbox@ + addressed(cs.take(k as int), outs),
            decreases n - k,
        {
            let ghost cur = self.connections.clients();
            let id = ids[k];
            let timeout = timeouts_us[k];
            proof {
                lemma_index_of_id(cur, id);
                assert(cur[k as int].client_id == id);
                if let Some(i) = index_of_id(cur, id) {
                    if i < k {
                        assert(resent(cs[i], cur[i], now_us, timeouts_us@[i], outs[i]));
                        assert(cur[i].client_id == cs[i].client_id);
                    }
                    if i != k {
                        assert(cur[i].client_id != cur[k as int].client_id);
                    }
                }
            }
            let r = self.connections.get_mut(id);
            let client = r.unwrap();
            let addr = client.addr;
            let mut out = client.collect_resends(now_us, timeout);
            let ghost sent = out@;
            let ghost base = self.outbox@;
            let ghost conns = self.connections;
            let ghost events = self.pending_events@;
            let ghost queue = self.command_queue@;
            let ghost gone = self.despawned@;
            while out.len() > 0
                invariant
                    self.connections == conns,
                    self.tick_rate == old(self).tick_rate,
                    self.pending_events@ == events,
                    self.command_queue@ == queue,
                    self.despawned@ == gone,
                    sent.len() >= out@.len(),
                    out@ == sent.skip(sent.len() - out@.len()),
                    self.outbox@ == base + sent.take(sent.len() - out@.len()).map_values(to_addr(addr)),
                decreases out@.len(),
            {
                let ghost done = sent.len() - out@.len();
                let p = out.remove(0);
                assert(p == sent[done]);
                self.outbox.push(OutgoingPacket { addr, packet: p });
                assert(out@ =~= sent.skip(done + 1));
                assert(sent.take(done + 1).map_values(to_addr(addr)) =~= sent.take(done).map_values(
                    to_addr(addr),
                ).push(OutgoingPacket { addr, packet: p }));
                assert(self.outbox@ =~= base + sent.take(done + 1).map_values(to_addr(addr)));
            }
            proof {
                assert(sent.take(sent.len() as int) =~= sent);
                let t = cs.take(k + 1);
                let o2 = outs.push(sent);
                assert(t.drop_last() =~= cs.take(k as int));
                assert(o2.drop_last() =~= outs);
                assert(addressed(t, o2) == addressed(cs.take(k as int), outs) + sent.map_values(
                    to_addr(cs[k as int].addr),
                ));
                assert(self.outbox@ =~= old(self).outbox@ + addressed(t, o2));
                outs = o2;
                assert forall|m: int| 0 <= m < k + 1 implies resent(
                    cs[m],
                    self.connections.clients()[m],
                    now_us,
                    timeouts_us@[m],
                    #[trigger] outs[m],
                ) by {
                    if m < k {
                        assert(outs[m] == o2.drop_last()[m]);
                    }
                }
            }
            k += 1;
        }
        proof {
            assert(cs.take(n as int) =~= cs);
        }
    }

    /// Raises the client's latest acknowledged snapshot tick to `received_tick`
    /// when that is newer.
    pub fn handle_snapshot_ack(&mut self, addr: PeerAddr, received_tick: u32)
        requires
            old(self).wf(),
        ensures
            final(self).wf(),
            snapshot_ack_step(*old(self), *final(self), addr, received_tick),
    {
        let newer = match self.connections.get_by_addr(&addr) {
            Some(client) => received_tick > client.last_acked_tick,
            None => false,
        };
        if newer {
            let r = self.connections.get_by_addr_mut(&addr);
            if r.is_some() {
                let client = r.unwrap();
                client.last_acked_tick = received_tick;
            }
        }
    }
}

/// A kicked client is gone: no connection has its id any more.
pub proof fn lemma_kicked_client_is_gone(before: ServerCore, after: ServerCore, client_id: u32)
    requires
        before.wf(),
        kick_step(before, after, client_id),
    ensures
        index_of_id(after.connections.clients(), client_id) is None,
{
    let cs = before.connections.clients();
    lemma_index_of_id(cs, client_id);
    lemma_index_of_id(after.connections.clients(), client_id);
    if let Some(i) = index_of_id(cs, client_id) {
        let rest = cs.remove(i);
        if let Some(k) = index_of_id(rest, client_id) {
            if k < i {
                assert(rest[k] == cs[k]);
            } else {
                assert(rest[k] == cs[k + 1]);
            }
        }
    }
}

/// The handshake completes: when a new address's connection request is
/// answered with a challenge, replying with the challenge value it carries
/// connects that client and asks for its entity.
pub proof fn lemma_handshake_connects(
    s0: ServerCore,
    s1: ServerCore,
    s2: ServerCore,
    addr: PeerAddr,
    client_salt: u64,
    now_us: u64,
    server_salt: u64,
    challenge: u64,
    spawn: Option<u32>,
)
    requires
        s0.wf(),
        index_of_addr(s0.connections.clients(), addr) is None,
        s0.connections.clients().len() < s0.connections.capacity(),
        connection_request_step(s0, s1, addr, client_salt, now_us),
        s1.outbox@.last().packet.payload == (PacketType::ConnectionChallenge { server_salt, challenge }),
        challenge_response_step(s1, s2, addr, challenge, spawn),
    ensures
        spawn == Some(s0.connections.next_id()),
        s2.connections.clients().last().state == ConnectionState::Connected,
        s2.connections.clients().last().addr == addr,
{
    let cs = s0.connections.clients();
    let cs1 = s1.connections.clients();
    let c = cs1.last();
    let c0 = choose|c0: ClientConnection|
        is_fresh(c0, addr, s0.connections.next_id(), client_salt, now_us) && after_send(
            c0,
            c,
            #[trigger] challenge_for(c0),
            Reliability::Reliable,
            now_us,
            s1.outbox@.last().packet,
        );
    assert(c.client_salt ^ c.server_salt == challenge);
    lemma_index_of_addr(cs, addr);
    lemma_index_of_addr(cs1, addr);
    assert(index_of_addr(cs1, addr) == Some(cs.len() as int)) by {
        assert(cs1.drop_last() =~= cs);
        if let Some(k) = index_of_addr(cs1, addr) {
            if k < cs.len() {
                assert(cs1[k] == cs[k]);
            }
        }
    }
}

/// Input from a connected client is queued: handling its commands appends
/// them, in order and tagged with its id, after what was already queued.
pub proof fn lemma_connected_input_is_queued(
    before: ServerCore,
    after: ServerCore,
    commands: Vec<ClientCommand>,
    addr: PeerAddr,
    now_us: u64,
    spawn: Option<u32>,
    i: int,
)
    requires
        payload_step(before, after, PacketType::ClientInput(commands), addr, now_us, spawn),
        index_of_addr(before.connections.clients(), addr) == Some(i),
        before.connections.clients()[i].state == ConnectionState::Connected,
    ensures
        spawn is None,
        after.command_queue@.len() == before.command_queue@.len() + commands@.len(),
        after.command_queue@.take(before.command_queue@.len() as int) == before.command_queue@,
        forall|k: int|
            0 <= k < commands@.len() ==> #[trigger] after.command_queue@[before.command_queue@.len()
                + k] == (QueuedCommand {
                client_id: before.connections.clients()[i].client_id,
                command: commands@[k],
            }),
        after.connections.clients() == before.connections.clients(),
{
    let q = before.command_queue@;
    assert(after.command_queue@.take(q.len() as int) =~= q);
}

/// Input from anyone who is not a connected client is ignored.
pub proof fn lemma_other_input_is_ignored(
    before: ServerCore,
    after: ServerCore,
    commands: Vec<ClientCommand>,
    addr: PeerAddr,
    now_us: u64,
    spawn: Option<u32>,
)
    requires
        payload_step(before, after, PacketType::ClientInput(commands), addr, now_us, spawn),
        !(index_of_addr(before.connections.clients(), addr) matches Some(i)
            && before.connections.clients()[i].state == ConnectionState::Connected),
    ensures
        spawn is None,
        after.command_queue@ == before.command_queue@,
{
}

} // verus!
