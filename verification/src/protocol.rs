use vstd::prelude::*;

verus! {

/// Largest datagram the transport accepts, in bytes.
pub const MAX_PACKET_SIZE: usize = 1200;

/// Wire protocol version carried in every header.
pub const PROTOCOL_VERSION: u32 = 2;

/// Magic number carried in every header ("DUAL").
pub const PROTOCOL_MAGIC: u32 = 0x4455414C;

/// Default UDP port of a server.
pub const DEFAULT_PORT: u16 = 27015;

/// Default simulation rate of a server, in ticks per second.
pub const DEFAULT_TICK_RATE: u32 = 128;

/// Half of the `u32` sequence space: the largest forward distance that still
/// counts as "newer" when comparing wrapping sequence numbers.
pub const SEQUENCE_WRAP_THRESHOLD: u32 = 2147483647;

/// Half of the `u16` sequence space, used for channel sequence numbers.
pub const SEQUENCE_WRAP_THRESHOLD_U16: u16 = 32767;

/// `s1` is newer than `s2` on the wrapping `u32` sequence circle.
pub open spec fn seq_gt(s1: u32, s2: u32) -> bool {
    (s1 > s2 && s1 - s2 <= SEQUENCE_WRAP_THRESHOLD) || (s1 < s2 && s2 - s1
        > SEQUENCE_WRAP_THRESHOLD)
}

/// `s1` is newer than `s2` on the wrapping `u16` sequence circle.
pub open spec fn seq_gt_u16(s1: u16, s2: u16) -> bool {
    (s1 > s2 && s1 - s2 <= SEQUENCE_WRAP_THRESHOLD_U16) || (s1 < s2 && s2 - s1
        > SEQUENCE_WRAP_THRESHOLD_U16)
}

/// Forward distance from `from` to `to` on the `u32` circle (`to - from` modulo 2^32).
pub open spec fn wrap_diff(to: u32, from: u32) -> u32 {
    if to >= from {
        (to - from) as u32
    } else {
        (to + 0x1_0000_0000 - from) as u32
    }
}

/// `s + 1` on the `u16` circle.
pub open spec fn next_u16(s: u16) -> u16 {
    if s == 0xffff {
        0
    } else {
        (s + 1) as u16
    }
}

/// `s + 1` on the `u32` circle.
pub open spec fn next_u32(s: u32) -> u32 {
    if s == 0xffff_ffff {
        0
    } else {
        (s + 1) as u32
    }
}

/// Whether sequence number `s1` is newer than `s2`, accounting for wrap-around.
pub fn sequence_greater_than(s1: u32, s2: u32) -> (r: bool)
    ensures
        r == seq_gt(s1, s2),
{
    (s1 > s2 && s1 - s2 <= SEQUENCE_WRAP_THRESHOLD) || (s1 < s2 && s2 - s1
        > SEQUENCE_WRAP_THRESHOLD)
}

/// Whether channel sequence number `s1` is newer than `s2` on the `u16` circle.
pub fn sequence_greater_than_u16(s1: u16, s2: u16) -> (r: bool)
    ensures
        r == seq_gt_u16(s1, s2),
{
    (s1 > s2 && s1 - s2 <= SEQUENCE_WRAP_THRESHOLD_U16) || (s1 < s2 && s2 - s1
        > SEQUENCE_WRAP_THRESHOLD_U16)
}

/// Wrapping sequence order: no number is newer than itself, and of two
/// different numbers exactly one is newer than the other.
pub proof fn lemma_sequence_order(a: u32, b: u32)
    ensures
        !seq_gt(a, a),
        a != b ==> (seq_gt(a, b) <==> !seq_gt(b, a)),
{
}

/// The same order on the `u16` channel sequence circle.
pub proof fn lemma_sequence_order_u16(a: u16, b: u16)
    ensures
        !seq_gt_u16(a, a),
        a != b ==> (seq_gt_u16(a, b) <==> !seq_gt_u16(b, a)),
{
}

/// The successor of a sequence number is newer than it, also across the wrap.
pub proof fn lemma_next_is_newer(a: u32)
    ensures
        seq_gt(next_u32(a), a),
{
}

/// Fixed-size header that precedes every payload on the wire.
#[derive(Debug, Clone, Copy, PartialEq, Eq, Structural)]
pub struct PacketHeader {
    pub magic: u32,
    pub version: u32,
    pub sequence: u32,
    pub ack: u32,
    pub ack_bitfield: u32,
    pub channel: u8,
    pub channel_seq: u16,
}

/// Channel of unreliable, unordered delivery.
pub const CHANNEL_UNRELIABLE: u8 = 0;

/// Channel of reliable, unordered delivery.
pub const CHANNEL_RELIABLE: u8 = 1;

/// Channel of reliable, ordered delivery.
pub const CHANNEL_ORDERED: u8 = 2;

impl PacketHeader {
    pub const CHANNEL_UNRELIABLE: u8 = 0;

    pub const CHANNEL_RELIABLE: u8 = 1;

    pub const CHANNEL_ORDERED: u8 = 2;

    /// The header with the current magic and version and the given fields.
    pub open spec fn spec_new(
        sequence: u32,
        ack: u32,
        ack_bitfield: u32,
        channel: u8,
        channel_seq: u16,
    ) -> PacketHeader {
        PacketHeader {
            magic: PROTOCOL_MAGIC,
            version: PROTOCOL_VERSION,
            sequence,
            ack,
            ack_bitfield,
            channel,
            channel_seq,
        }
    }

    pub fn new(sequence: u32, ack: u32, ack_bitfield: u32, channel: u8, channel_seq: u16) -> (h:
        Self)
        ensures
            h == Self::spec_new(sequence, ack, ack_bitfield, channel, channel_seq),
    {
        PacketHeader {
            magic: PROTOCOL_MAGIC,
            version: PROTOCOL_VERSION,
            sequence,
            ack,
            ack_bitfield,
            channel,
            channel_seq,
        }
    }

    /// A header is valid when it carries this protocol's magic and version.
    pub open spec fn valid(&self) -> bool {
        self.magic == PROTOCOL_MAGIC && self.version == PROTOCOL_VERSION
    }

    pub fn is_valid(&self) -> (r: bool)
        ensures
            r == self.valid(),
    {
        self.magic == PROTOCOL_MAGIC && self.version == PROTOCOL_VERSION
    }
}

/// One tick of player input as sent by a client.
#[derive(Debug, Clone, Copy)]
pub struct ClientCommand {
    pub tick: u32,
    pub command_sequence: u32,
    pub move_direction: [i8; 3],
    pub view_angles: [i16; 2],
    pub input_flags: u16,
    /// Command duration in microseconds (for sub-tick precision).
    pub duration_us: u16,
}

impl ClientCommand {
    pub const FLAG_SPRINT: u16 = 1;

    pub const FLAG_JUMP: u16 = 2;

    pub const FLAG_CROUCH: u16 = 4;

    pub const FLAG_FIRE1: u16 = 8;

    pub const FLAG_FIRE2: u16 = 16;

    pub const FLAG_USE: u16 = 32;

    pub const FLAG_RELOAD: u16 = 64;

    pub const FLAG_JUMP_HELD: u16 = 128;

    /// An idle command for `tick`: no movement, no view change, no flags.
    pub fn new(tick: u32, command_sequence: u32) -> (c: Self)
        ensures
            c.tick == tick,
            c.command_sequence == command_sequence,
            c.move_direction@ == seq![0i8, 0i8, 0i8],
            c.view_angles@ == seq![0i16, 0i16],
            c.input_flags == 0,
            c.duration_us == 0,
    {
        ClientCommand {
            tick,
            command_sequence,
            move_direction: [0, 0, 0],
            view_angles: [0, 0],
            input_flags: 0,
            duration_us: 0,
        }
    }

    /// Whether any bit of `flag` is set in the command's flags.
    pub open spec fn spec_has_flag(&self, flag: u16) -> bool {
        self.input_flags & flag != 0
    }

    pub fn has_flag(&self, flag: u16) -> (r: bool)
        ensures
            r == self.spec_has_flag(flag),
    {
        self.input_flags & flag != 0
    }

    /// Sets (`value`) or clears (`!value`) the bits of `flag`; nothing else changes.
    pub fn set_flag(&mut self, flag: u16, value: bool)
        ensures
            final(self).input_flags == (if value {
                old(self).input_flags | flag
            } else {
                old(self).input_flags & !flag
            }),
            final(self).tick == old(self).tick,
            final(self).command_sequence == old(self).command_sequence,
            final(self).move_direction == old(self).move_direction,
            final(self).view_angles == old(self).view_angles,
            final(self).duration_us == old(self).duration_us,
    {
        if value {
            self.input_flags = self.input_flags | flag;
        } else {
            self.input_flags = self.input_flags & !flag;
        }
    }
}

/// Setting a flag makes it read back as `value`, and leaves every flag that
/// shares no bit with it as it was.
pub proof fn lemma_set_flag_reads_back(flags: u16, flag: u16, other: u16, value: bool)
    requires
        flag != 0,
        other & flag == 0,
    ensures
        ((if value {
            flags | flag
        } else {
            flags & !flag
        }) & flag != 0) == value,
        ((if value {
            flags | flag
        } else {
            flags & !flag
        }) & other != 0) == (flags & other != 0),
{
    if value {
        assert(((flags | flag) & flag != 0) == true) by (bit_vector)
            requires
                flag != 0,
        ;
        assert(((flags | flag) & other != 0) == (flags & other != 0)) by (bit_vector)
            requires
                other & flag == 0,
        ;
    } else {
        assert(((flags & !flag) & flag != 0) == false) by (bit_vector);
        assert(((flags & !flag) & other != 0) == (flags & other != 0)) by (bit_vector)
            requires
                other & flag == 0,
        ;
    }
}

/// Payload of a packet.
#[derive(Debug)]
pub enum PacketType {
    ConnectionRequest { client_salt: u64 },
    ConnectionChallenge { server_salt: u64, challenge: u64 },
    ChallengeResponse { combined_salt: u64 },
    ConnectionAccepted { client_id: u32, entity_id: u32, tick_rate: u32 },
    ConnectionDenied { reason: String },
    /// Client input – contains the last N commands for redundancy.
    ClientInput(Vec<ClientCommand>),
    Ping { timestamp: u64 },
    Pong { timestamp: u64 },
    SnapshotAck { received_tick: u32 },
    Disconnect,
}

/// Two payloads carry the same content: the same variant and fields, command
/// lists compared by their elements.
pub open spec fn same_payload(a: PacketType, b: PacketType) -> bool {
    match (a, b) {
        (PacketType::ClientInput(x), PacketType::ClientInput(y)) => x@ == y@,
        _ => a == b,
    }
}

impl Clone for PacketType {
    fn clone(&self) -> (r: Self)
        ensures
            same_payload(r, *self),
    {
        match self {
            PacketType::ConnectionRequest { client_salt } => PacketType::ConnectionRequest {
                client_salt: *client_salt,
            },
            PacketType::ConnectionChallenge { server_salt, challenge } =>
                PacketType::ConnectionChallenge { server_salt: *server_salt, challenge: *challenge },
            PacketType::ChallengeResponse { combined_salt } => PacketType::ChallengeResponse {
                combined_salt: *combined_salt,
            },
            PacketType::ConnectionAccepted { client_id, entity_id, tick_rate } =>
                PacketType::ConnectionAccepted {
                client_id: *client_id,
                entity_id: *entity_id,
                tick_rate: *tick_rate,
            },
            PacketType::ConnectionDenied { reason } => PacketType::ConnectionDenied {
                reason: reason.clone(),
            },
            PacketType::ClientInput(commands) => {
                let copy = commands.clone();
                assert(copy@ =~= commands@);
                PacketType::ClientInput(copy)
            },
            PacketType::Ping { timestamp } => PacketType::Ping { timestamp: *timestamp },
            PacketType::Pong { timestamp } => PacketType::Pong { timestamp: *timestamp },
            PacketType::SnapshotAck { received_tick } => PacketType::SnapshotAck {
                received_tick: *received_tick,
            },
            PacketType::Disconnect => PacketType::Disconnect,
        }
    }
}

/// A header and its payload.
#[derive(Debug)]
pub struct Packet {
    pub header: PacketHeader,
    pub payload: PacketType,
}

impl Packet {
    pub fn new(header: PacketHeader, payload: PacketType) -> (p: Self)
        ensures
            p.header == header,
            p.payload == payload,
    {
        Packet { header, payload }
    }
}

impl Clone for Packet {
    fn clone(&self) -> (r: Self)
        ensures
            r.header == self.header,
            same_payload(r.payload, self.payload),
    {
        Packet { header: self.header, payload: self.payload.clone() }
    }
}

} // verus!
