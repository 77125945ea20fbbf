use vstd::prelude::*;

use crate::connection::{ConnectionState, PeerAddr};
use crate::protocol::{next_u32, Packet, PacketHeader, PacketType, CHANNEL_UNRELIABLE, MAX_PACKET_SIZE};
use crate::tracking::{
    ack_state_after, acked_list, drop_acked_prefix, mark_acked, pending_after_track, window_after,
    AckTracker, AckedPacket, PendingPacket, ReceiveTracker, RECENT_SEQUENCE_WINDOW,
};

verus! {

/// Capacity of an endpoint's acknowledgement tracker.
pub const ENDPOINT_ACK_CAPACITY: usize = 256;

/// Idle time after which an endpoint counts as timed out by default (10 s).
pub const DEFAULT_ENDPOINT_TIMEOUT_US: u64 = 10_000_000;

/// Datagrams shorter than this are dropped unread.
pub const MIN_DATAGRAM_SIZE: usize = 8;

/// Packet and byte counters of an endpoint.
#[derive(Debug, Clone, Copy, PartialEq, Eq, Structural)]
pub struct TrafficCounters {
    pub packets_sent: u64,
    pub packets_received: u64,
    pub packets_lost: u64,
    pub bytes_sent: u64,
    pub bytes_received: u64,
}

/// Why an outgoing packet was not handed to the socket.
#[derive(Debug, Clone, Copy, PartialEq, Eq, Structural)]
pub enum SendRejection {
    /// The encoded packet is larger than [`MAX_PACKET_SIZE`].
    ExceedsMtu,
}

/// Whether an encoded packet of `len` bytes fits in one datagram.
pub fn check_outgoing_size(len: usize) -> (r: Result<(), SendRejection>)
    ensures
        r is Ok <==> len <= MAX_PACKET_SIZE,
        r is Err ==> r == Err::<(), SendRejection>(SendRejection::ExceedsMtu),
{
    if len > MAX_PACKET_SIZE {
        Err(SendRejection::ExceedsMtu)
    } else {
        Ok(())
    }
}

/// The sequencing, acknowledgement and bookkeeping state of a UDP endpoint;
/// the socket itself is held by the caller.
#[derive(Debug)]
pub struct EndpointState {
    pub remote_addr: Option<PeerAddr>,
    pub state: ConnectionState,
    pub send_sequence: u32,
    pub ack_tracker: AckTracker,
    pub receive_tracker: ReceiveTracker,
    pub counters: TrafficCounters,
    pub timeout_us: u64,
    pub last_receive_time_us: u64,
    /// When true, skip global duplicate filtering (a server tracks duplicates per client).
    pub server_mode: bool,
}

/// Counters with nothing counted.
pub open spec fn zero_counters() -> TrafficCounters {
    TrafficCounters {
        packets_sent: 0,
        packets_received: 0,
        packets_lost: 0,
        bytes_sent: 0,
        bytes_received: 0,
    }
}

impl EndpointState {
    pub open spec fn remote(&self) -> Option<PeerAddr> {
        self.remote_addr
    }

    pub open spec fn conn_state(&self) -> ConnectionState {
        self.state
    }

    pub open spec fn next_sequence(&self) -> u32 {
        self.send_sequence
    }

    pub open spec fn traffic(&self) -> TrafficCounters {
        self.counters
    }

    pub open spec fn timeout(&self) -> u64 {
        self.timeout_us
    }

    pub open spec fn last_receive(&self) -> u64 {
        self.last_receive_time_us
    }

    pub open spec fn is_server(&self) -> bool {
        self.server_mode
    }

    pub open spec fn wf(&self) -> bool {
        &&& self.ack_tracker.wf()
        &&& self.ack_tracker.max_pending() == ENDPOINT_ACK_CAPACITY
        &&& self.receive_tracker.wf()
    }

    /// A disconnected endpoint with fresh trackers and counters.
    pub fn new(now_us: u64) -> (e: Self)
        ensures
            e.wf(),
            e.remote() is None,
            e.conn_state() == ConnectionState::Disconnected,
            e.next_sequence() == 0,
            e.ack_tracker.pending() == Seq::<PendingPacket>::empty(),
            e.receive_tracker.last() == 0,
            e.receive_tracker.bitfield() == 0,
            e.receive_tracker.recent() == Seq::<u32>::empty(),
            e.traffic() == zero_counters(),
            e.timeout() == DEFAULT_ENDPOINT_TIMEOUT_US,
            e.last_receive() == now_us,
            !e.is_server(),
    {
        EndpointState {
            remote_addr: None,
            state: ConnectionState::Disconnected,
            send_sequence: 0,
            ack_tracker: AckTracker::new(ENDPOINT_ACK_CAPACITY),
            receive_tracker: ReceiveTracker::new(),
            counters: TrafficCounters {
                packets_sent: 0,
                packets_received: 0,
                packets_lost: 0,
                bytes_sent: 0,
                bytes_received: 0,
            },
            timeout_us: DEFAULT_ENDPOINT_TIMEOUT_US,
            last_receive_time_us: now_us,
            server_mode: false,
        }
    }

    /// Server mode disables the endpoint's own duplicate filtering.
    pub fn set_server_mode(&mut self, server_mode: bool)
        ensures
            final(self).is_server() == server_mode,
            final(self).remote() == old(self).remote(),
            final(self).conn_state() == old(self).conn_state(),
            final(self).next_sequence() == old(self).next_sequence(),
            final(self).ack_tracker == old(self).ack_tracker,
            final(self).receive_tracker == old(self).receive_tracker,
            final(self).traffic() == old(self).traffic(),
            final(self).timeout() == old(self).timeout(),
            final(self).last_receive() == old(self).last_receive(),
    {
        self.server_mode = server_mode;
    }

    pub fn remote_addr(&self) -> (r: Option<PeerAddr>)
        ensures
            r == self.remote(),
    {
        self.remote_addr
    }

    pub fn state(&self) -> (r: ConnectionState)
        ensures
            r == self.conn_state(),
    {
        self.state
    }

    pub fn set_state(&mut self, state: ConnectionState)
        ensures
            final(self).conn_state() == state,
            final(self).remote() == old(self).remote(),
            final(self).is_server() == old(self).is_server(),
            final(self).next_sequence() == old(self).next_sequence(),
            final(self).ack_tracker == old(self).ack_tracker,
            final(self).receive_tracker == old(self).receive_tracker,
            final(self).traffic() == old(self).traffic(),
            final(self).timeout() == old(self).timeout(),
            final(self).last_receive() == old(self).last_receive(),
    {
        self.state = state;
    }

    pub fn set_remote(&mut self, addr: PeerAddr)
        ensures
            final(self).remote() == Some(addr),
            final(self).conn_state() == old(self).conn_state(),
            final(self).is_server() == old(self).is_server(),
            final(self).next_sequence() == old(self).next_sequence(),
            final(self).ack_tracker == old(self).ack_tracker,
            final(self).receive_tracker == old(self).receive_tracker,
            final(self).traffic() == old(self).traffic(),
            final(self).timeout() == old(self).timeout(),
            final(self).last_receive() == old(self).last_receive(),
    {
        self.remote_addr = Some(addr);
    }

    pub fn counters(&self) -> (r: TrafficCounters)
        ensures
            r == self.traffic(),
    {
        self.counters
    }

    /// Wraps `payload` in an unreliable packet with the next wire sequence and
    /// the current acknowledgement data.
    pub fn create_packet(&mut self, payload: PacketType) -> (p: Packet)
        ensures
            p.header == PacketHeader::spec_new(
                old(self).next_sequence(),
                old(self).receive_tracker.last(),
                old(self).receive_tracker.bitfield(),
                CHANNEL_UNRELIABLE,
                0,
            ),
            p.payload == payload,
            final(self).next_sequence() == next_u32(old(self).next_sequence()),
            final(self).remote() == old(self).remote(),
            final(self).conn_state() == old(self).conn_state(),
            final(self).is_server() == old(self).is_server(),
            final(self).ack_tracker == old(self).ack_tracker,
            final(self).receive_tracker == old(self).receive_tracker,
            final(self).traffic() == old(self).traffic(),
            final(self).timeout() == old(self).timeout(),
            final(self).last_receive() == old(self).last_receive(),
    {
        let sequence = self.send_sequence;
        self.send_sequence = self.send_sequence.wrapping_add(1);
        let (ack, ack_bitfield) = self.receive_tracker.ack_data();
        let header = PacketHeader::new(sequence, ack, ack_bitfield, CHANNEL_UNRELIABLE, 0);
        Packet::new(header, payload)
    }

    /// Notes that a packet with wire sequence `sequence` went out as `bytes`
    /// bytes at `now_us`: it is tracked for acknowledgement and counted.
    pub fn record_sent(&mut self, sequence: u32, bytes: usize, now_us: u64)
        requires
            old(self).wf(),
            old(self).traffic().packets_sent < u64::MAX,
            old(self).traffic().bytes_sent + bytes <= u64::MAX,
        ensures
            final(self).wf(),
            final(self).ack_tracker.pending() == pending_after_track(
                old(self).ack_tracker.pending(),
                ENDPOINT_ACK_CAPACITY as nat,
                sequence,
                now_us,
            ),
            final(self).traffic() == (TrafficCounters {
                packets_sent: (old(self).traffic().packets_sent + 1) as u64,
                bytes_sent: (old(self).traffic().bytes_sent + bytes) as u64,
                ..old(self).traffic()
            }),
            final(self).next_sequence() == old(self).next_sequence(),
            final(self).remote() == old(self).remote(),
            final(self).conn_state() == old(self).conn_state(),
            final(self).is_server() == old(self).is_server(),
            final(self).receive_tracker == old(self).receive_tracker,
            final(self).timeout() == old(self).timeout(),
            final(self).last_receive() == old(self).last_receive(),
    {
        self.ack_tracker.track_packet(sequence, now_us);
        self.counters.packets_sent = self.counters.packets_sent + 1;
        self.counters.bytes_sent = self.counters.bytes_sent + bytes as u64;
    }

    /// Decides on a received datagram of `size` bytes whose decoded header is
    /// `header` (`None` when it did not decode). Too short, undecodable and
    /// foreign packets are dropped, as are wire duplicates unless in server
    /// mode. An accepted packet's acknowledgements are applied, it is counted,
    /// and the newly acknowledged packets are returned.
    pub fn accept_incoming(&mut self, size: usize, header: Option<PacketHeader>, now_us: u64) -> (r:
        Option<Vec<AckedPacket>>)
        requires
            old(self).wf(),
            header matches Some(h) ==> (size >= MIN_DATAGRAM_SIZE && h.valid() && !old(self).is_server()
                ==> old(self).receive_tracker.can_record_spec(h.sequence)),
            old(self).traffic().packets_received < u64::MAX,
            old(self).traffic().bytes_received + size <= u64::MAX,
        ensures
            final(self).wf(),
            final(self).next_sequence() == old(self).next_sequence(),
            final(self).remote() == old(self).remote(),
            final(self).conn_state() == old(self).conn_state(),
            final(self).is_server() == old(self).is_server(),
            final(self).timeout() == old(self).timeout(),
            ({
                let h = header->0;
                let dropped = size < MIN_DATAGRAM_SIZE || header is None || !h.valid() || (
                !old(self).is_server() && old(self).receive_tracker.recent().contains(h.sequence));
                &&& dropped ==> {
                    &&& r is None
                    &&& final(self).ack_tracker == old(self).ack_tracker
                    &&& final(self).receive_tracker == old(self).receive_tracker
                    &&& final(self).traffic() == old(self).traffic()
                    &&& final(self).last_receive() == old(self).last_receive()
                }
                &&& !dropped ==> {
                    &&& r is Some
                    &&& r->0@ == acked_list(
                        old(self).ack_tracker.pending(),
                        h.ack,
                        h.ack_bitfield,
                        now_us,
                    )
                    &&& final(self).ack_tracker.pending() == drop_acked_prefix(
                        mark_acked(old(self).ack_tracker.pending(), h.ack, h.ack_bitfield),
                    )
                    &&& old(self).is_server() ==> final(self).receive_tracker == old(self).receive_tracker
                    &&& !old(self).is_server() ==> {
                        &&& final(self).receive_tracker.recent() == window_after(
                            old(self).receive_tracker.recent(),
                            RECENT_SEQUENCE_WINDOW as nat,
                            h.sequence,
                        )
                        &&& (final(self).receive_tracker.last(), final(self).receive_tracker.bitfield()) == ack_state_after(
                            old(self).receive_tracker.last(),
                            old(self).receive_tracker.bitfield(),
                            h.sequence,
                        )
                    }
                    &&& final(self).traffic() == (TrafficCounters {
                        packets_received: (old(self).traffic().packets_received + 1) as u64,
                        bytes_received: (old(self).traffic().bytes_received + size) as u64,
                        ..old(self).traffic()
                    })
                    &&& final(self).last_receive() == now_us
                }
            }),
    {
        if size < MIN_DATAGRAM_SIZE {
            return None;
        }
        let h = match header {
            Some(h) => h,
            None => {
                return None;
            },
        };
        if !h.is_valid() {
            return None;
        }
        if !self.server_mode && !self.receive_tracker.record_received(h.sequence) {
            return None;
        }
        let acked = self.ack_tracker.process_ack(h.ack, h.ack_bitfield, now_us);
        self.counters.packets_received = self.counters.packets_received + 1;
        self.counters.bytes_received = self.counters.bytes_received + size as u64;
        self.last_receive_time_us = now_us;
        Some(acked)
    }

    /// Whether more than the timeout passed since the last accepted packet.
    pub fn is_timed_out(&self, now_us: u64) -> (r: bool)
        ensures
            r == (now_us >= self.last_receive() && now_us - self.last_receive() > self.timeout()),
    {
        now_us >= self.last_receive_time_us && now_us - self.last_receive_time_us > self.timeout_us
    }

    pub fn set_timeout(&mut self, timeout_us: u64)
        ensures
            final(self).timeout() == timeout_us,
            final(self).remote() == old(self).remote(),
            final(self).conn_state() == old(self).conn_state(),
            final(self).is_server() == old(self).is_server(),
            final(self).next_sequence() == old(self).next_sequence(),
            final(self).ack_tracker == old(self).ack_tracker,
            final(self).receive_tracker == old(self).receive_tracker,
            final(self).traffic() == old(self).traffic(),
            final(self).last_receive() == old(self).last_receive(),
    {
        self.timeout_us = timeout_us;
    }

    /// Back to a disconnected state with fresh trackers and counters; the
    /// remote address, timeout and mode are kept.
    pub fn reset(&mut self, now_us: u64)
        ensures
            final(self).wf(),
            final(self).conn_state() == ConnectionState::Disconnected,
            final(self).next_sequence() == 0,
            final(self).ack_tracker.pending() == Seq::<PendingPacket>::empty(),
            final(self).receive_tracker.last() == 0,
            final(self).receive_tracker.bitfield() == 0,
            final(self).receive_tracker.recent() == Seq::<u32>::empty(),
            final(self).traffic() == zero_counters(),
            final(self).last_receive() == now_us,
            final(self).remote() == old(self).remote(),
            final(self).is_server() == old(self).is_server(),
            final(self).timeout() == old(self).timeout(),
    {
        self.state = ConnectionState::Disconnected;
        self.send_sequence = 0;
        self.ack_tracker = AckTracker::new(ENDPOINT_ACK_CAPACITY);
        self.receive_tracker = ReceiveTracker::new();
        self.counters = TrafficCounters {
            packets_sent: 0,
            packets_received: 0,
            packets_lost: 0,
            bytes_sent: 0,
            bytes_received: 0,
        };
        self.last_receive_time_us = now_us;
    }
}

} // verus!
