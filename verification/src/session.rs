use vstd::prelude::*;

use crate::connection::{after_send, is_fresh, ClientConnection, ConnectionState, PeerAddr, Reliability};
use crate::protocol::{Packet, PacketType};

verus! {

/// The client side of a session with a game server: the handshake state and
/// the reliability layer towards the server. Salts are drawn by the caller.
#[derive(Debug)]
pub struct ClientSession {
    pub connection: ClientConnection,
    pub state: ConnectionState,
    pub client_id: Option<u32>,
    pub entity_id: Option<u32>,
    pub client_salt: u64,
    pub server_salt: Option<u64>,
    /// When the current connection attempt started, in microseconds.
    pub connection_start_us: Option<u64>,
    pub command_sequence: u32,
    pub last_server_ack: u32,
    pub estimated_server_tick: u32,
}

/// `after` is `before` back at rest with the fresh salt `client_salt`; the
/// connection towards the server is kept.
pub open spec fn is_reset(before: ClientSession, after: ClientSession, client_salt: u64) -> bool {
    &&& after.connection == before.connection
    &&& after.state == ConnectionState::Disconnected
    &&& after.client_id is None
    &&& after.entity_id is None
    &&& after.server_salt is None
    &&& after.client_salt == client_salt
    &&& after.connection_start_us is None
    &&& after.command_sequence == 0
    &&& after.last_server_ack == 0
    &&& after.estimated_server_tick == 0
}

/// `after` is `before` with a new connection only.
pub open spec fn only_connection_changed(before: ClientSession, after: ClientSession) -> bool {
    after == ClientSession { connection: after.connection, ..before }
}

/// What the session does on a payload from the server, and the packet it
/// answers with: a matching challenge is answered with the combined salt, a
/// mismatched one only remembered; an acceptance connects; a denial or a
/// disconnect resets with `new_salt`; anything else changes nothing.
pub open spec fn session_step(
    before: ClientSession,
    after: ClientSession,
    payload: PacketType,
    now_us: u64,
    new_salt: u64,
    reply: Option<Packet>,
) -> bool {
    match payload {
        PacketType::ConnectionChallenge { server_salt, challenge } => {
            let mid = ClientSession {
                server_salt: Some(server_salt),
                state: ConnectionState::ChallengeResponse,
                connection: ClientConnection {
                    state: ConnectionState::ChallengeResponse,
                    ..before.connection
                },
                ..before
            };
            if challenge == before.client_salt ^ server_salt {
                &&& reply matches Some(p) && after_send(
                    mid.connection,
                    after.connection,
                    PacketType::ChallengeResponse { combined_salt: challenge },
                    Reliability::Reliable,
                    now_us,
                    p,
                )
                &&& only_connection_changed(mid, after)
            } else {
                reply is None && after == mid
            }
        },
        PacketType::ConnectionAccepted { client_id, entity_id, .. } => {
            &&& reply is None
            &&& after == ClientSession {
                client_id: Some(client_id),
                entity_id: Some(entity_id),
                state: ConnectionState::Connected,
                connection: ClientConnection {
                    state: ConnectionState::Connected,
                    client_id,
                    entity_id: Some(entity_id),
                    ..before.connection
                },
                ..before
            }
        },
        PacketType::ConnectionDenied { .. } => reply is None && is_reset(before, after, new_salt),
        PacketType::Disconnect => reply is None && is_reset(before, after, new_salt),
        _ => reply is None && after == before,
    }
}

impl ClientSession {
    pub open spec fn wf(&self) -> bool {
        self.connection.wf()
    }

    /// A session at rest, whose connection towards `server` is not opened yet.
    pub fn new(server: PeerAddr, client_salt: u64, now_us: u64) -> (s: Self)
        ensures
            s.wf(),
            is_fresh(s.connection, server, 0, client_salt, now_us),
            s.state == ConnectionState::Disconnected,
            s.client_id is None,
            s.entity_id is None,
            s.client_salt == client_salt,
            s.server_salt is None,
            s.connection_start_us is None,
            s.command_sequence == 0,
            s.last_server_ack == 0,
            s.estimated_server_tick == 0,
    {
        ClientSession {
            connection: ClientConnection::new(server, 0, client_salt, now_us),
            state: ConnectionState::Disconnected,
            client_id: None,
            entity_id: None,
            client_salt,
            server_salt: None,
            connection_start_us: None,
            command_sequence: 0,
            last_server_ack: 0,
            estimated_server_tick: 0,
        }
    }

    /// Starts connecting to `server`: a fresh connection carrying the client
    /// salt, and the unreliable connection request to send.
    pub fn connect(&mut self, server: PeerAddr, now_us: u64) -> (request: Packet)
        requires
            old(self).wf(),
        ensures
            final(self).wf(),
            *final(self) == (ClientSession {
                connection: final(self).connection,
                state: ConnectionState::Connecting,
                connection_start_us: Some(now_us),
                ..*old(self)
            }),
            exists|c0: ClientConnection|
                is_fresh(c0, server, 0, old(self).client_salt, now_us) && #[trigger] after_send(
                    c0,
                    final(self).connection,
                    PacketType::ConnectionRequest { client_salt: old(self).client_salt },
                    Reliability::Unreliable,
                    now_us,
                    request,
                ),
    {
        self.state = ConnectionState::Connecting;
        self.connection_start_us = Some(now_us);
        self.connection = ClientConnection::new(server, 0, self.client_salt, now_us);
        let ghost c0 = self.connection;
        let salt = self.client_salt;
        let request = self.connection.send_packet(
            PacketType::ConnectionRequest { client_salt: salt },
            Reliability::Unreliable,
            now_us,
        );
        proof {
            assert(is_fresh(c0, server, 0, old(self).client_salt, now_us));
        }
        request
    }

    /// Back at rest with the fresh salt `new_salt`.
    pub fn reset(&mut self, new_salt: u64)
        ensures
            is_reset(*old(self), *final(self), new_salt),
    {
        self.state = ConnectionState::Disconnected;
        self.client_id = None;
        self.entity_id = None;
        self.server_salt = None;
        self.client_salt = new_salt;
        self.command_sequence = 0;
        self.connection_start_us = None;
        self.last_server_ack = 0;
        self.estimated_server_tick = 0;
    }

    /// Leaves the server: a connected session first sends a reliable
    /// disconnect, which is returned; then it resets with `new_salt`.
    pub fn disconnect(&mut self, new_salt: u64, now_us: u64) -> (goodbye: Option<Packet>)
        requires
            old(self).wf(),
        ensures
            final(self).wf(),
            old(self).state == ConnectionState::Connected ==> (goodbye matches Some(p) && after_send(
                old(self).connection,
                final(self).connection,
                PacketType::Disconnect,
                Reliability::Reliable,
                now_us,
                p,
            )),
            old(self).state != ConnectionState::Connected ==> goodbye is None
                && final(self).connection == old(self).connection,
            is_reset(
                ClientSession { connection: final(self).connection, ..*old(self) },
                *final(self),
                new_salt,
            ),
    {
        let goodbye = if self.state == ConnectionState::Connected {
            Some(self.connection.send_packet(PacketType::Disconnect, Reliability::Reliable, now_us))
        } else {
            None
        };
        self.reset(new_salt);
        goodbye
    }

    /// Whether a connection attempt has lasted longer than `timeout_us`.
    pub fn handshake_timed_out(&self, now_us: u64, timeout_us: u64) -> (r: bool)
        ensures
            r == ((self.state == ConnectionState::Connecting || self.state
                == ConnectionState::ChallengeResponse) && (self.connection_start_us matches Some(
                start,
            ) && now_us >= start && now_us - start > timeout_us)),
    {
        match self.state {
            ConnectionState::Connecting | ConnectionState::ChallengeResponse => {
                match self.connection_start_us {
                    Some(start) => now_us >= start && now_us - start > timeout_us,
                    None => false,
                }
            },
            _ => false,
        }
    }

    /// Handles a payload from the server and returns the packet to answer
    /// with, if any. `new_salt` is the salt a reset starts from.
    pub fn handle_payload(&mut self, payload: PacketType, now_us: u64, new_salt: u64) -> (reply:
        Option<Packet>)
        requires
            old(self).wf(),
        ensures
            final(self).wf(),
            session_step(*old(self), *final(self), payload, now_us, new_salt, reply),
    {
        match payload {
            PacketType::ConnectionChallenge { server_salt, challenge } => {
                self.server_salt = Some(server_salt);
                self.state = ConnectionState::ChallengeResponse;
                self.connection.state = ConnectionState::ChallengeResponse;
                let expected = self.client_salt ^ server_salt;
                if challenge != expected {
                    return None;
                }
                Some(
                    self.connection.send_packet(
                        PacketType::ChallengeResponse { combined_salt: expected },
                        Reliability::Reliable,
                        now_us,
                    ),
                )
            },
            PacketType::ConnectionAccepted { client_id, entity_id, .. } => {
                self.client_id = Some(client_id);
                self.entity_id = Some(entity_id);
                self.state = ConnectionState::Connected;
                self.connection.state = ConnectionState::Connected;
                self.connection.client_id = client_id;
                self.connection.entity_id = Some(entity_id);
                None
            },
            PacketType::ConnectionDenied { .. } => {
                self.reset(new_salt);
                None
            },
            PacketType::Disconnect => {
                self.reset(new_salt);
                None
            },
            _ => None,
        }
    }
}

/// A denial or a disconnect from the server always ends the session: it is
/// disconnected, knows no client id, entity or server salt, starts over from
/// the fresh salt, and answers nothing.
pub proof fn lemma_session_ends_on_disconnect_or_denial(
    before: ClientSession,
    after: ClientSession,
    payload: PacketType,
    now_us: u64,
    new_salt: u64,
    reply: Option<Packet>,
)
    requires
        payload is Disconnect || payload is ConnectionDenied,
        session_step(before, after, payload, now_us, new_salt, reply),
    ensures
        reply is None,
        after.state == ConnectionState::Disconnected,
        after.client_id is None,
        after.entity_id is None,
        after.server_salt is None,
        after.client_salt == new_salt,
        after.connection_start_us is None,
{
}

/// A session that accepted the server's welcome is connected under the id and
/// entity the server gave it.
pub proof fn lemma_session_connects_on_acceptance(
    before: ClientSession,
    after: ClientSession,
    client_id: u32,
    entity_id: u32,
    tick_rate: u32,
    now_us: u64,
    new_salt: u64,
    reply: Option<Packet>,
)
    requires
        session_step(
            before,
            after,
            PacketType::ConnectionAccepted { client_id, entity_id, tick_rate },
            now_us,
            new_salt,
            reply,
        ),
    ensures
        reply is None,
        after.state == ConnectionState::Connected,
        after.client_id == Some(client_id),
        after.entity_id == Some(entity_id),
        after.connection.state == ConnectionState::Connected,
{
}

} // verus!
