use std::collections::{HashMap, VecDeque};
use std::hash::{Hash, Hasher};

use vstd::prelude::*;

use crate::protocol::{
    next_u16, next_u32, seq_gt_u16, sequence_greater_than_u16, Packet, PacketHeader, PacketType,
    same_payload, CHANNEL_ORDERED, CHANNEL_RELIABLE, CHANNEL_UNRELIABLE,
};
use crate::tracking::{
    ack_state_after, acked_list, drop_acked_prefix, mark_acked, pending_after_track,
    window_after, AckTracker, AckedPacket, PendingPacket, ReceiveTracker, RECENT_SEQUENCE_WINDOW,
};

verus! {

broadcast use vstd::std_specs::hash::group_hash_axioms;

/// Capacity of the send-side acknowledgement tracker of a connection.
pub const CONNECTION_ACK_CAPACITY: usize = 1024;

/// How many reliable channel sequences are remembered for duplicate detection.
pub const RELIABLE_HISTORY_SIZE: usize = 256;

/// Idle time after which a client is dropped by default, in seconds.
pub const DEFAULT_TIMEOUT_SECS: u64 = 120;

#[derive(Debug, Clone, Copy, PartialEq, Eq, Structural)]
pub enum ConnectionState {
    Disconnected,
    Connecting,
    ChallengeResponse,
    Connected,
    Disconnecting,
}

/// Delivery guarantee requested for an outgoing payload.
#[derive(Debug, Clone, Copy, PartialEq, Eq, Structural)]
pub enum Reliability {
    Unreliable,
    Reliable,
    Ordered,
}

/// A peer's network address: 128 bits of IP (an IPv4 address in its low 32
/// bits when `is_v6` is false) and a port.
#[derive(Debug, Clone, Copy, PartialEq, Eq, Structural)]
pub struct PeerAddr {
    pub ip: u128,
    pub port: u16,
    pub is_v6: bool,
}

/// A point in time of std's monotonic clock.
#[verifier::external_type_specification]
#[verifier::external_body]
pub struct ExInstant(std::time::Instant);

/// Trusted: `std::time::Instant::now`, the current time of the monotonic
/// clock; nothing is promised of the value.
#[verifier::external_body]
fn instant_now() -> std::time::Instant {
    std::time::Instant::now()
}

/// Trusted: `<Instant as Hash>::hash`, which feeds `t` into `hasher`; nothing
/// is promised of the hasher's state afterwards.
#[verifier::external_body]
fn hash_instant(t: &std::time::Instant, hasher: &mut std::collections::hash_map::DefaultHasher) {
    t.hash(hasher);
}

/// A random 64-bit value (the server's connection salt): the hash of the
/// current time. Nothing is promised of the value.
pub fn rand_u64() -> u64 {
    let mut hasher = std::collections::hash_map::DefaultHasher::new();
    let now = instant_now();
    hash_instant(&now, &mut hasher);
    hasher.finish()
}

/// A reliable or ordered payload kept until the peer acknowledges it.
#[derive(Debug)]
pub struct PendingMessage {
    pub channel_seq: u16,
    pub payload: PacketType,
    /// When the payload was last sent, in microseconds of the caller's clock.
    pub last_send_us: u64,
}

/// `queue` without the messages whose channel sequence is `cs`.
pub open spec fn without_seq(queue: Seq<PendingMessage>, cs: u16) -> Seq<PendingMessage>
    decreases queue.len(),
{
    if queue.len() == 0 {
        queue
    } else {
        let rest = without_seq(queue.drop_last(), cs);
        if queue.last().channel_seq == cs {
            rest
        } else {
            rest.push(queue.last())
        }
    }
}

/// The in-flight map and pending queues after the wire sequence `seq` was
/// acknowledged: its in-flight entry goes, and with it the pending message of
/// its channel.
pub open spec fn release_one(
    st: (Map<u32, (u8, u16)>, Seq<PendingMessage>, Seq<PendingMessage>),
    seq: u32,
) -> (Map<u32, (u8, u16)>, Seq<PendingMessage>, Seq<PendingMessage>) {
    let (inflight, rq, oq) = st;
    if inflight.contains_key(seq) {
        let (ch, cs) = inflight[seq];
        let rest = inflight.remove(seq);
        if ch == CHANNEL_RELIABLE {
            (rest, without_seq(rq, cs), oq)
        } else if ch == CHANNEL_ORDERED {
            (rest, rq, without_seq(oq, cs))
        } else {
            (rest, rq, oq)
        }
    } else {
        st
    }
}

/// [`release_one`] applied to each acknowledged packet in order.
pub open spec fn release_acked(
    st: (Map<u32, (u8, u16)>, Seq<PendingMessage>, Seq<PendingMessage>),
    acked: Seq<AckedPacket>,
) -> (Map<u32, (u8, u16)>, Seq<PendingMessage>, Seq<PendingMessage>)
    decreases acked.len(),
{
    if acked.len() == 0 {
        st
    } else {
        release_one(release_acked(st, acked.drop_last()), acked.last().sequence)
    }
}

/// The payloads that become deliverable, in order, when the ordered channel
/// expects `next` and `buffer` holds early arrivals; with the buffer and the
/// expected sequence afterwards.
pub open spec fn ordered_run(buffer: Map<u16, PacketType>, next: u16) -> (
    Seq<PacketType>,
    Map<u16, PacketType>,
    u16,
)
    decreases buffer.dom().len(),
{
    if buffer.dom().finite() && buffer.contains_key(next) {
        let (tail, b, n) = ordered_run(buffer.remove(next), next_u16(next));
        (seq![buffer[next]] + tail, b, n)
    } else {
        (Seq::empty(), buffer, next)
    }
}


proof fn lemma_without_seq_concat(a: Seq<PendingMessage>, b: Seq<PendingMessage>, cs: u16)
    ensures
        without_seq(a + b, cs) == without_seq(a, cs) + without_seq(b, cs),
    decreases b.len(),
{
    if b.len() == 0 {
        assert(a + b =~= a);
        assert(without_seq(a, cs) + without_seq(b, cs) =~= without_seq(a, cs));
    } else {
        lemma_without_seq_concat(a, b.drop_last(), cs);
        assert((a + b).drop_last() =~= a + b.drop_last());
        assert((a + b).last() == b.last());
        if b.last().channel_seq == cs {
        } else {
            assert(without_seq(a, cs) + without_seq(b.drop_last(), cs).push(b.last()) =~= (
            without_seq(a, cs) + without_seq(b.drop_last(), cs)).push(b.last()));
        }
    }
}

proof fn lemma_without_seq_single(m: PendingMessage, cs: u16)
    ensures
        without_seq(seq![m], cs) == (if m.channel_seq == cs {
            Seq::<PendingMessage>::empty()
        } else {
            seq![m]
        }),
{
    assert(seq![m].drop_last() =~= Seq::<PendingMessage>::empty());
    assert(without_seq(Seq::<PendingMessage>::empty(), cs) == Seq::<PendingMessage>::empty());
    assert(seq![m].last() == m);
    assert(Seq::<PendingMessage>::empty().push(m) =~= seq![m]);
}

/// Drops the messages of `queue` whose channel sequence is `cs`.
fn remove_seq(queue: &mut Vec<PendingMessage>, cs: u16)
    ensures
        final(queue)@ == without_seq(old(queue)@, cs),
{
    let ghost orig = queue@;
    let mut i: usize = queue.len();
    assert(orig.subrange(i as int, orig.len() as int) =~= Seq::<PendingMessage>::empty());
    assert(orig.take(i as int) =~= orig);
    assert(queue@ =~= orig.take(i as int) + without_seq(
        orig.subrange(i as int, orig.len() as int),
        cs,
    ));
    while i > 0
        invariant
            i <= orig.len(),
            queue@ == orig.take(i as int) + without_seq(
                orig.subrange(i as int, orig.len() as int),
                cs,
            ),
        decreases i,
    {
        let ghost tail = without_seq(orig.subrange(i as int, orig.len() as int), cs);
        proof {
            let x = orig[i - 1];
            assert(orig.subrange(i - 1, orig.len() as int) =~= seq![x] + orig.subrange(
                i as int,
                orig.len() as int,
            ));
            lemma_without_seq_concat(seq![x], orig.subrange(i as int, orig.len() as int), cs);
            lemma_without_seq_single(x, cs);
            assert(orig.take(i as int) =~= orig.take(i - 1).push(x));
        }
        if queue[i - 1].channel_seq == cs {
            queue.remove(i - 1);
            assert(queue@ =~= orig.take(i - 1) + tail);
            assert(seq![orig[i - 1]].len() == 1);
        } else {
            assert(queue@ =~= orig.take(i - 1) + (seq![orig[i - 1]] + tail));
        }
        i -= 1;
        assert(queue@ =~= orig.take(i as int) + without_seq(
            orig.subrange(i as int, orig.len() as int),
            cs,
        )) by {
            if orig[i as int].channel_seq == cs {
                assert(Seq::<PendingMessage>::empty() + tail =~= tail);
            }
        }
    }
    assert(orig.subrange(0, orig.len() as int) =~= orig);
    assert(orig.take(0) + without_seq(orig, cs) =~= without_seq(orig, cs));
}

/// Whether `value` occurs in `items`.
fn deque_contains_u16(items: &VecDeque<u16>, value: u16) -> (r: bool)
    ensures
        r == items@.contains(value),
{
    let mut i: usize = 0;
    while i < items.len()
        invariant
            i <= items@.len(),
            forall|j: int| 0 <= j < i ==> items@[j] != value,
        decreases items@.len() - i,
    {
        if items[i] == value {
            return true;
        }
        i += 1;
    }
    false
}

/// Resends the due messages of `queue` on `channel`: each gets the next wire
/// sequence, an in-flight entry and a fresh send time.
fn resend_due(
    queue: &mut Vec<PendingMessage>,
    send_sequence: &mut u32,
    inflight: &mut HashMap<u32, (u8, u16)>,
    channel: u8,
    ack: u32,
    ack_bitfield: u32,
    now_us: u64,
    timeout_us: u64,
) -> (out: Vec<Packet>)
    ensures
        final(queue)@ == refreshed(old(queue)@, now_us, timeout_us),
        *final(send_sequence) == advance_u32(
            *old(send_sequence),
            due_count(old(queue)@, now_us, timeout_us),
        ),
        final(inflight)@ == resend_inflight(
            old(inflight)@,
            old(queue)@,
            now_us,
            timeout_us,
            *old(send_sequence),
            channel,
        ),
        out@.len() == due_count(old(queue)@, now_us, timeout_us),
        forall|k: int|
            0 <= k < out@.len() ==> (#[trigger] out@[k]).header == resend_headers(
                old(queue)@,
                now_us,
                timeout_us,
                *old(send_sequence),
                channel,
                ack,
                ack_bitfield,
            )[k] && same_payload(out@[k].payload, due_payloads(old(queue)@, now_us, timeout_us)[k]),
{
    let ghost orig = queue@;
    let ghost first = *send_sequence;
    let ghost inf0 = inflight@;
    let mut out: Vec<Packet> = Vec::new();
    let n = queue.len();
    let mut i: usize = 0;
    while i < n
        invariant
            n == orig.len(),
            i <= n,
            queue@.len() == n,
            queue@.take(i as int) == refreshed(orig.take(i as int), now_us, timeout_us),
            queue@.skip(i as int) == orig.skip(i as int),
            *send_sequence == advance_u32(first, due_count(orig.take(i as int), now_us, timeout_us)),
            inflight@ == resend_inflight(inf0, orig.take(i as int), now_us, timeout_us, first, channel),
            out@.len() == due_count(orig.take(i as int), now_us, timeout_us),
            forall|k: int|
                0 <= k < out@.len() ==> (#[trigger] out@[k]).header == resend_headers(
                    orig.take(i as int),
                    now_us,
                    timeout_us,
                    first,
                    channel,
                    ack,
                    ack_bitfield,
                )[k] && same_payload(
                    out@[k].payload,
                    due_payloads(orig.take(i as int), now_us, timeout_us)[k],
                ),
        decreases n - i,
    {
        let ghost pre = orig.take(i as int);
        let ghost m = orig[i as int];
        proof {
            assert(orig.take(i + 1).drop_last() =~= pre);
            assert(orig.take(i + 1).last() == m);
            assert(queue@[i as int] == orig.skip(i as int)[0]);
            lemma_resend_lens(pre, now_us, timeout_us, first, channel, ack, ack_bitfield);
        }
        let ghost q_before = queue@;
        let last_send = queue[i].last_send_us;
        if now_us >= last_send && now_us - last_send > timeout_us {
            queue[i].last_send_us = now_us;
            assert(queue@[i as int] == (PendingMessage { last_send_us: now_us, ..m }));
            assert(queue@ =~= q_before.update(i as int, PendingMessage { last_send_us: now_us, ..m }));
            let wire_seq = *send_sequence;
            *send_sequence = send_sequence.wrapping_add(1);
            inflight.insert(wire_seq, (channel, queue[i].channel_seq));
            let header = PacketHeader::new(wire_seq, ack, ack_bitfield, channel, queue[i].channel_seq);
            let payload = queue[i].payload.clone();
            out.push(Packet::new(header, payload));
        }
        proof {
            assert forall|j: int| 0 <= j < i + 1 implies #[trigger] queue@.take(i + 1)[j] == refreshed(
                orig.take(i + 1),
                now_us,
                timeout_us,
            )[j] by {
                if j < i {
                    assert(q_before.take(i as int)[j] == refreshed(
                        orig.take(i as int),
                        now_us,
                        timeout_us,
                    )[j]);
                    assert(orig.take(i as int)[j] == orig.take(i + 1)[j]);
                }
            }
            assert(queue@.take(i + 1) =~= refreshed(orig.take(i + 1), now_us, timeout_us));
            assert forall|j: int| 0 <= j < n - (i + 1) implies #[trigger] queue@.skip(i + 1)[j] == orig.skip(
                i + 1,
            )[j] by {
                assert(q_before.skip(i as int)[j + 1] == orig.skip(i as int)[j + 1]);
            }
            assert(queue@.skip(i + 1) =~= orig.skip(i + 1));
        }
        i += 1;
    }
    proof {
        assert(orig.take(n as int) =~= orig);
        assert(queue@ =~= queue@.take(n as int));
        assert(refreshed(orig, now_us, timeout_us).len() == n);
    }
    out
}

/// The channel bookkeeping of a connection: channel sequence counters,
/// in-flight wire sequences, unacknowledged payloads, and the receive-side
/// duplicate history and reorder buffer.
#[derive(Debug)]
pub struct ChannelState {
    next_reliable_seq: u16,
    next_ordered_seq: u16,
    inflight_packets: HashMap<u32, (u8, u16)>,
    pending_reliable: Vec<PendingMessage>,
    pending_ordered: Vec<PendingMessage>,
    received_reliable_history: VecDeque<u16>,
    next_expected_ordered: u16,
    ordered_buffer: HashMap<u16, PacketType>,
}

impl ChannelState {
    pub closed spec fn next_reliable(&self) -> u16 {
        self.next_reliable_seq
    }

    pub closed spec fn next_ordered(&self) -> u16 {
        self.next_ordered_seq
    }

    /// Wire sequence -> (channel, channel sequence) of unacknowledged reliable and ordered sends.
    pub closed spec fn inflight(&self) -> Map<u32, (u8, u16)> {
        self.inflight_packets@
    }

    pub closed spec fn reliable_queue(&self) -> Seq<PendingMessage> {
        self.pending_reliable@
    }

    pub closed spec fn ordered_queue(&self) -> Seq<PendingMessage> {
        self.pending_ordered@
    }

    /// Recently delivered reliable channel sequences, oldest first.
    pub closed spec fn reliable_history(&self) -> Seq<u16> {
        self.received_reliable_history@
    }

    pub closed spec fn next_expected(&self) -> u16 {
        self.next_expected_ordered
    }

    /// Ordered payloads that arrived ahead of the expected sequence.
    pub closed spec fn ordered_buffered(&self) -> Map<u16, PacketType> {
        self.ordered_buffer@
    }

    pub open spec fn is_initial(&self) -> bool {
        &&& self.next_reliable() == 0
        &&& self.next_ordered() == 0
        &&& self.inflight() == Map::<u32, (u8, u16)>::empty()
        &&& self.reliable_queue() == Seq::<PendingMessage>::empty()
        &&& self.ordered_queue() == Seq::<PendingMessage>::empty()
        &&& self.reliable_history() == Seq::<u16>::empty()
        &&& self.next_expected() == 0
        &&& self.ordered_buffered() == Map::<u16, PacketType>::empty()
    }

    /// Forgets the in-flight entries of the acknowledged wire sequences and
    /// the pending messages they carried.
    fn release(&mut self, acked: &Vec<AckedPacket>)
        ensures
            (final(self).inflight(), final(self).reliable_queue(), final(self).ordered_queue())
                == release_acked(
                (old(self).inflight(), old(self).reliable_queue(), old(self).ordered_queue()),
                acked@,
            ),
            final(self).next_reliable() == old(self).next_reliable(),
            final(self).next_ordered() == old(self).next_ordered(),
            final(self).reliable_history() == old(self).reliable_history(),
            final(self).next_expected() == old(self).next_expected(),
            final(self).ordered_buffered() == old(self).ordered_buffered(),
    {
        let ghost start = (self.inflight_packets@, self.pending_reliable@, self.pending_ordered@);
        let mut i: usize = 0;
        while i < acked.len()
            invariant
                i <= acked@.len(),
                (self.inflight_packets@, self.pending_reliable@, self.pending_ordered@)
                    == release_acked(start, acked@.take(i as int)),
                self.next_reliable_seq == old(self).next_reliable_seq,
                self.next_ordered_seq == old(self).next_ordered_seq,
                self.received_reliable_history == old(self).received_reliable_history,
                self.next_expected_ordered == old(self).next_expected_ordered,
                self.ordered_buffer == old(self).ordered_buffer,
            decreases acked@.len() - i,
        {
            proof {
                assert(acked@.take(i + 1).drop_last() =~= acked@.take(i as int));
                assert(acked@.take(i + 1).last() == acked@[i as int]);
            }
            let seq = acked[i].sequence;
            match self.inflight_packets.remove(&seq) {
                Some((channel, channel_seq)) => {
                    if channel == CHANNEL_RELIABLE {
                        remove_seq(&mut self.pending_reliable, channel_seq);
                    } else if channel == CHANNEL_ORDERED {
                        remove_seq(&mut self.pending_ordered, channel_seq);
                    }
                },
                None => {},
            }
            i += 1;
        }
        assert(acked@.take(acked@.len() as int) =~= acked@);
    }

    /// Hands up the payload of a packet that is not a wire duplicate, per its channel.
    fn deliver(&mut self, header: PacketHeader, payload: PacketType) -> (out: Vec<PacketType>)
        requires
            old(self).reliable_history().len() <= RELIABLE_HISTORY_SIZE,
        ensures
            final(self).reliable_history().len() <= RELIABLE_HISTORY_SIZE,
            (out@, final(self).reliable_history(), final(self).next_expected(),
                final(self).ordered_buffered()) == delivered(
                old(self).reliable_history(),
                old(self).next_expected(),
                old(self).ordered_buffered(),
                header,
                payload,
            ),
            final(self).next_reliable() == old(self).next_reliable(),
            final(self).next_ordered() == old(self).next_ordered(),
            final(self).inflight() == old(self).inflight(),
            final(self).reliable_queue() == old(self).reliable_queue(),
            final(self).ordered_queue() == old(self).ordered_queue(),
    {
        let seq = header.channel_seq;
        if header.channel == CHANNEL_UNRELIABLE {
            let mut out = Vec::new();
            out.push(payload);
            assert(out@ =~= seq![payload]);
            out
        } else if header.channel == CHANNEL_RELIABLE {
            if deque_contains_u16(&self.received_reliable_history, seq) {
                Vec::new()
            } else {
                if self.received_reliable_history.len() >= RELIABLE_HISTORY_SIZE {
                    self.received_reliable_history.pop_front();
                }
                self.received_reliable_history.push_back(seq);
                let mut out = Vec::new();
                out.push(payload);
                assert(out@ =~= seq![payload]);
                out
            }
        } else if header.channel == CHANNEL_ORDERED {
            if seq == self.next_expected_ordered {
                let ghost target = ordered_run(
                    self.ordered_buffer@,
                    next_u16(self.next_expected_ordered),
                );
                let mut result = Vec::new();
                result.push(payload);
                self.next_expected_ordered = self.next_expected_ordered.wrapping_add(1);
                loop
                    invariant
                        self.received_reliable_history == old(self).received_reliable_history,
                        self.next_reliable_seq == old(self).next_reliable_seq,
                        self.next_ordered_seq == old(self).next_ordered_seq,
                        self.inflight_packets == old(self).inflight_packets,
                        self.pending_reliable == old(self).pending_reliable,
                        self.pending_ordered == old(self).pending_ordered,
                        result@.len() >= 1,
                        result@[0] == payload,
                        ({
                            let (run, b, n) = ordered_run(
                                self.ordered_buffer@,
                                self.next_expected_ordered,
                            );
                            &&& result@ + run == seq![payload] + target.0
                            &&& b == target.1
                            &&& n == target.2
                        }),
                    ensures
                        result@ == seq![payload] + target.0,
                        self.ordered_buffer@ == target.1,
                        self.next_expected_ordered == target.2,
                        self.received_reliable_history == old(self).received_reliable_history,
                        self.next_reliable_seq == old(self).next_reliable_seq,
                        self.next_ordered_seq == old(self).next_ordered_seq,
                        self.inflight_packets == old(self).inflight_packets,
                        self.pending_reliable == old(self).pending_reliable,
                        self.pending_ordered == old(self).pending_ordered,
                    decreases self.ordered_buffer@.dom().len(),
                {
                    let ghost before = self.ordered_buffer@;
                    let ghost cur = self.next_expected_ordered;
                    match self.ordered_buffer.remove(&self.next_expected_ordered) {
                        Some(buffered) => {
                            proof {
                                assert(before.dom().finite());
                                assert(before.contains_key(cur));
                                let (tail, b, n) = ordered_run(before.remove(cur), next_u16(cur));
                                assert(ordered_run(before, cur) == (seq![before[cur]] + tail, b, n));
                                assert(result@.push(buffered) + tail =~= result@ + (seq![before[cur]] + tail));
                            }
                            result.push(buffered);
                            self.next_expected_ordered = self.next_expected_ordered.wrapping_add(1);
                        },
                        None => {
                            proof {
                                assert(result@ + Seq::<PacketType>::empty() =~= result@);
                            }
                            break;
                        },
                    }
                }
                result
            } else if sequence_greater_than_u16(seq, self.next_expected_ordered) {
                self.ordered_buffer.insert(seq, payload);
                Vec::new()
            } else {
                Vec::new()
            }
        } else {
            Vec::new()
        }
    }

    fn new() -> (c: Self)
        ensures
            c.is_initial(),
    {
        ChannelState {
            next_reliable_seq: 0,
            next_ordered_seq: 0,
            inflight_packets: HashMap::new(),
            pending_reliable: Vec::new(),
            pending_ordered: Vec::new(),
            received_reliable_history: VecDeque::with_capacity(RELIABLE_HISTORY_SIZE),
            next_expected_ordered: 0,
            ordered_buffer: HashMap::new(),
        }
    }
}


/// `new_q` is `old_q` after `payload` was queued under channel sequence `cs`
/// at `now_us`, replacing any message with that channel sequence.
pub open spec fn queued_after_send(
    old_q: Seq<PendingMessage>,
    new_q: Seq<PendingMessage>,
    cs: u16,
    payload: PacketType,
    now_us: u64,
) -> bool {
    &&& new_q.len() > 0
    &&& new_q.drop_last() == without_seq(old_q, cs)
    &&& new_q.last().channel_seq == cs
    &&& new_q.last().last_send_us == now_us
    &&& same_payload(new_q.last().payload, payload)
}

/// The wire channel that carries payloads of the given reliability.
pub open spec fn channel_of(r: Reliability) -> u8 {
    match r {
        Reliability::Unreliable => CHANNEL_UNRELIABLE,
        Reliability::Reliable => CHANNEL_RELIABLE,
        Reliability::Ordered => CHANNEL_ORDERED,
    }
}

/// The connection fields that sending and receiving leave alone.
pub open spec fn same_identity(a: ClientConnection, b: ClientConnection) -> bool {
    &&& a.addr == b.addr
    &&& a.client_id == b.client_id
    &&& a.state == b.state
    &&& a.client_salt == b.client_salt
    &&& a.server_salt == b.server_salt
    &&& a.last_command_ack == b.last_command_ack
    &&& a.last_acked_tick == b.last_acked_tick
    &&& a.entity_id == b.entity_id
    &&& a.lobby_id == b.lobby_id
}


/// What the receive side hands up for a packet that is not a wire duplicate,
/// and the reliable history, expected ordered sequence and reorder buffer
/// afterwards.
///
/// Unreliable payloads pass straight through; a reliable payload passes once
/// per channel sequence still in the history; an ordered payload passes when
/// it is the expected one, together with the buffered run that follows it,
/// is buffered when it is ahead, and is dropped when it is behind.
pub open spec fn delivered(
    history: Seq<u16>,
    next: u16,
    buffer: Map<u16, PacketType>,
    header: PacketHeader,
    payload: PacketType,
) -> (Seq<PacketType>, Seq<u16>, u16, Map<u16, PacketType>) {
    let cs = header.channel_seq;
    if header.channel == CHANNEL_UNRELIABLE {
        (seq![payload], history, next, buffer)
    } else if header.channel == CHANNEL_RELIABLE {
        if history.contains(cs) {
            (Seq::empty(), history, next, buffer)
        } else {
            (seq![payload], window_after(history, RELIABLE_HISTORY_SIZE as nat, cs), next, buffer)
        }
    } else if header.channel == CHANNEL_ORDERED {
        if cs == next {
            let (run, b, n) = ordered_run(buffer, next_u16(next));
            (seq![payload] + run, history, n, b)
        } else if seq_gt_u16(cs, next) {
            (Seq::empty(), history, next, buffer.insert(cs, payload))
        } else {
            (Seq::empty(), history, next, buffer)
        }
    } else {
        (Seq::empty(), history, next, buffer)
    }
}


proof fn lemma_without_seq_drops(queue: Seq<PendingMessage>, cs: u16)
    ensures
        forall|j: int|
            0 <= j < without_seq(queue, cs).len() ==> (#[trigger] without_seq(queue, cs)[j]).channel_seq
                != cs,
    decreases queue.len(),
{
    if queue.len() > 0 {
        lemma_without_seq_drops(queue.drop_last(), cs);
    }
}

/// Acknowledgement releases: once the wire sequence that carried a reliable
/// or ordered message is acknowledged, no message of that channel sequence
/// is kept for resending, and the wire sequence is no longer in flight.
pub proof fn lemma_acked_message_is_released(
    st: (Map<u32, (u8, u16)>, Seq<PendingMessage>, Seq<PendingMessage>),
    seq: u32,
)
    requires
        st.0.contains_key(seq),
    ensures
        ({
            let (inflight, rq, oq) = release_one(st, seq);
            let (ch, cs) = st.0[seq];
            &&& !inflight.contains_key(seq)
            &&& ch == CHANNEL_RELIABLE ==> forall|j: int|
                0 <= j < rq.len() ==> (#[trigger] rq[j]).channel_seq != cs
            &&& ch == CHANNEL_ORDERED ==> forall|j: int|
                0 <= j < oq.len() ==> (#[trigger] oq[j]).channel_seq != cs
        }),
{
    let (ch, cs) = st.0[seq];
    lemma_without_seq_drops(st.1, cs);
    lemma_without_seq_drops(st.2, cs);
}

/// Reliable delivery keeps trying: every queued message that is due is among
/// the payloads resent.
pub proof fn lemma_due_message_is_resent(q: Seq<PendingMessage>, now_us: u64, timeout_us: u64, i: int)
    requires
        0 <= i < q.len(),
        due(q[i], now_us, timeout_us),
    ensures
        due_payloads(q, now_us, timeout_us).contains(q[i].payload),
    decreases q.len(),
{
    if i < q.len() - 1 {
        lemma_due_message_is_resent(q.drop_last(), now_us, timeout_us, i);
        assert(q.drop_last()[i] == q[i]);
        let rest = due_payloads(q.drop_last(), now_us, timeout_us);
        let k = choose|k: int| 0 <= k < rest.len() && rest[k] == q[i].payload;
        if due(q.last(), now_us, timeout_us) {
            assert(due_payloads(q, now_us, timeout_us)[k] == q[i].payload);
        }
    } else {
        let out = due_payloads(q, now_us, timeout_us);
        assert(out[out.len() - 1] == q[i].payload);
    }
}

/// Ordered delivery hands each channel sequence up at most once: an ordered
/// payload whose channel sequence is behind the expected one (a late resend of
/// something already delivered) hands up nothing and leaves the expected
/// sequence and the reorder buffer as they were.
pub proof fn lemma_stale_ordered_is_dropped(
    history: Seq<u16>,
    next: u16,
    buffer: Map<u16, PacketType>,
    header: PacketHeader,
    payload: PacketType,
)
    requires
        header.channel == CHANNEL_ORDERED,
        header.channel_seq != next,
        !seq_gt_u16(header.channel_seq, next),
    ensures
        ({
            let (out, h, n, b) = delivered(history, next, buffer, header, payload);
            &&& out.len() == 0
            &&& h == history
            &&& n == next
            &&& b == buffer
        }),
{
}

/// The same at the connection: a packet on the ordered channel whose channel
/// sequence is behind the expected one hands nothing to the application.
pub proof fn lemma_connection_drops_stale_ordered(
    before: ClientConnection,
    after: ClientConnection,
    packet: Packet,
    now_us: u64,
    out: Seq<PacketType>,
)
    requires
        after_receive(before, after, packet, now_us, out),
        packet.header.channel == CHANNEL_ORDERED,
        packet.header.channel_seq != before.channels.next_expected(),
        !seq_gt_u16(packet.header.channel_seq, before.channels.next_expected()),
    ensures
        out.len() == 0,
        after.channels.next_expected() == before.channels.next_expected(),
        after.channels.ordered_buffered() == before.channels.ordered_buffered(),
{
    if !before.receive_tracker.recent().contains(packet.header.sequence) {
        lemma_stale_ordered_is_dropped(
            before.channels.reliable_history(),
            before.channels.next_expected(),
            before.channels.ordered_buffered(),
            packet.header,
            packet.payload,
        );
    }
}

/// `a` advanced by `k` steps on the `u16` circle.
pub open spec fn advance_u16(a: u16, k: nat) -> u16
    decreases k,
{
    if k == 0 {
        a
    } else {
        advance_u16(next_u16(a), (k - 1) as nat)
    }
}

/// In-order delivery: the run handed up from the reorder buffer is the
/// buffered payloads of consecutive channel sequences starting at the
/// expected one, with no gap; it stops at the first missing sequence, which
/// becomes the expected one; what stays buffered was buffered before, and
/// nothing handed up stays buffered.
pub proof fn lemma_ordered_run_is_consecutive(buffer: Map<u16, PacketType>, next: u16)
    requires
        buffer.dom().finite(),
    ensures
        ({
            let (run, rest, expected) = ordered_run(buffer, next);
            &&& forall|j: int|
                0 <= j < run.len() ==> buffer.contains_key(#[trigger] advance_u16(next, j as nat))
                    && run[j] == buffer[advance_u16(next, j as nat)]
                    && !rest.contains_key(advance_u16(next, j as nat))
            &&& expected == advance_u16(next, run.len())
            &&& !rest.contains_key(expected)
            &&& forall|k: u16| #[trigger] rest.contains_key(k) ==> buffer.contains_key(k) && rest[k]
                == buffer[k]
        }),
    decreases buffer.dom().len(),
{
    if buffer.contains_key(next) {
        let smaller = buffer.remove(next);
        lemma_ordered_run_is_consecutive(smaller, next_u16(next));
        let (tail, rest, expected) = ordered_run(smaller, next_u16(next));
        let (run, rest2, expected2) = ordered_run(buffer, next);
        assert(run == seq![buffer[next]] + tail);
        assert forall|j: int| 0 <= j < run.len() implies buffer.contains_key(
            #[trigger] advance_u16(next, j as nat),
        ) && run[j] == buffer[advance_u16(next, j as nat)] && !rest2.contains_key(
            advance_u16(next, j as nat),
        ) by {
            if j > 0 {
                assert(advance_u16(next, j as nat) == advance_u16(next_u16(next), (j - 1) as nat));
                assert(run[j] == tail[j - 1]);
            } else {
                assert(advance_u16(next, 0) == next);
            }
        }
        assert(advance_u16(next, run.len()) == advance_u16(next_u16(next), tail.len()));
    } else {
        assert(advance_u16(next, 0) == next);
    }
}

/// A reliable payload is handed up at most once: delivering the same channel
/// sequence again, after it was recorded, hands nothing up.
pub proof fn lemma_reliable_delivered_once(
    history: Seq<u16>,
    next: u16,
    buffer: Map<u16, PacketType>,
    header: PacketHeader,
    payload: PacketType,
    again: PacketType,
)
    requires
        header.channel == CHANNEL_RELIABLE,
    ensures
        ({
            let (_, h, n, b) = delivered(history, next, buffer, header, payload);
            delivered(h, n, b, header, again).0 == Seq::<PacketType>::empty()
        }),
{
    let cs = header.channel_seq;
    if !history.contains(cs) {
        let w = window_after(history, RELIABLE_HISTORY_SIZE as nat, cs);
        assert(w[w.len() - 1] == cs);
    }
}

/// `a` advanced by `k` steps on the `u32` circle.
pub open spec fn advance_u32(a: u32, k: nat) -> u32
    decreases k,
{
    if k == 0 {
        a
    } else {
        next_u32(advance_u32(a, (k - 1) as nat))
    }
}

/// A pending message is due for resending when more than `timeout_us` passed
/// since it was last sent.
pub open spec fn due(m: PendingMessage, now_us: u64, timeout_us: u64) -> bool {
    now_us >= m.last_send_us && now_us - m.last_send_us > timeout_us
}

/// Number of due messages in `q`.
pub open spec fn due_count(q: Seq<PendingMessage>, now_us: u64, timeout_us: u64) -> nat
    decreases q.len(),
{
    if q.len() == 0 {
        0
    } else {
        due_count(q.drop_last(), now_us, timeout_us) + if due(q.last(), now_us, timeout_us) {
            1nat
        } else {
            0nat
        }
    }
}

/// `q` with the send time of every due message moved to `now_us`.
pub open spec fn refreshed(q: Seq<PendingMessage>, now_us: u64, timeout_us: u64) -> Seq<
    PendingMessage,
> {
    q.map_values(
        |m: PendingMessage|
            if due(m, now_us, timeout_us) {
                PendingMessage { last_send_us: now_us, ..m }
            } else {
                m
            },
    )
}

/// Headers of the resends of the due messages of `q`, numbered from `first` on.
pub open spec fn resend_headers(
    q: Seq<PendingMessage>,
    now_us: u64,
    timeout_us: u64,
    first: u32,
    channel: u8,
    ack: u32,
    ack_bitfield: u32,
) -> Seq<PacketHeader>
    decreases q.len(),
{
    if q.len() == 0 {
        Seq::empty()
    } else {
        let rest = resend_headers(q.drop_last(), now_us, timeout_us, first, channel, ack, ack_bitfield);
        if due(q.last(), now_us, timeout_us) {
            rest.push(
                PacketHeader::spec_new(
                    advance_u32(first, due_count(q.drop_last(), now_us, timeout_us)),
                    ack,
                    ack_bitfield,
                    channel,
                    q.last().channel_seq,
                ),
            )
        } else {
            rest
        }
    }
}

/// Payloads of the due messages of `q`, in order.
pub open spec fn due_payloads(q: Seq<PendingMessage>, now_us: u64, timeout_us: u64) -> Seq<
    PacketType,
>
    decreases q.len(),
{
    if q.len() == 0 {
        Seq::empty()
    } else {
        let rest = due_payloads(q.drop_last(), now_us, timeout_us);
        if due(q.last(), now_us, timeout_us) {
            rest.push(q.last().payload)
        } else {
            rest
        }
    }
}

/// The in-flight map after the due messages of `q` were resent on `channel`
/// under wire sequences numbered from `first` on.
pub open spec fn resend_inflight(
    inflight: Map<u32, (u8, u16)>,
    q: Seq<PendingMessage>,
    now_us: u64,
    timeout_us: u64,
    first: u32,
    channel: u8,
) -> Map<u32, (u8, u16)>
    decreases q.len(),
{
    if q.len() == 0 {
        inflight
    } else {
        let rest = resend_inflight(inflight, q.drop_last(), now_us, timeout_us, first, channel);
        if due(q.last(), now_us, timeout_us) {
            rest.insert(
                advance_u32(first, due_count(q.drop_last(), now_us, timeout_us)),
                (channel, q.last().channel_seq),
            )
        } else {
            rest
        }
    }
}

proof fn lemma_resend_lens(
    q: Seq<PendingMessage>,
    now_us: u64,
    timeout_us: u64,
    first: u32,
    channel: u8,
    ack: u32,
    ack_bitfield: u32,
)
    ensures
        resend_headers(q, now_us, timeout_us, first, channel, ack, ack_bitfield).len() == due_count(
            q,
            now_us,
            timeout_us,
        ),
        due_payloads(q, now_us, timeout_us).len() == due_count(q, now_us, timeout_us),
        due_count(q, now_us, timeout_us) <= q.len(),
    decreases q.len(),
{
    if q.len() > 0 {
        lemma_resend_lens(q.drop_last(), now_us, timeout_us, first, channel, ack, ack_bitfield);
    }
}

/// What sending `payload` with `reliability` at `now_us` does to a connection
/// and which packet it yields: the next wire sequence with the current
/// acknowledgement data, and for reliable and ordered payloads the next
/// sequence of their channel, the payload kept for resending and the wire
/// sequence noted as in flight.
pub open spec fn after_send(
    before: ClientConnection,
    after: ClientConnection,
    payload: PacketType,
    reliability: Reliability,
    now_us: u64,
    p: Packet,
) -> bool {
    &&& after.rtt_samples == before.rtt_samples
    &&& same_identity(after, before)
    &&& after.last_receive_time_us == before.last_receive_time_us
    &&& after.receive_tracker == before.receive_tracker
    &&& after.send_sequence == next_u32(before.send_sequence)
    &&& after.ack_tracker.max_pending() == before.ack_tracker.max_pending()
    &&& after.ack_tracker.pending() == pending_after_track(
        before.ack_tracker.pending(),
        before.ack_tracker.max_pending(),
        before.send_sequence,
        now_us,
    )
    &&& p.payload == payload
    &&& p.header == PacketHeader::spec_new(
        before.send_sequence,
        before.receive_tracker.last(),
        before.receive_tracker.bitfield(),
        channel_of(reliability),
        match reliability {
            Reliability::Unreliable => 0u16,
            Reliability::Reliable => before.channels.next_reliable(),
            Reliability::Ordered => before.channels.next_ordered(),
        },
    )
    &&& after.channels.reliable_history() == before.channels.reliable_history()
    &&& after.channels.next_expected() == before.channels.next_expected()
    &&& after.channels.ordered_buffered() == before.channels.ordered_buffered()
    &&& reliability == Reliability::Unreliable ==> after.channels == before.channels
    &&& reliability == Reliability::Reliable ==> {
        &&& after.channels.next_reliable() == next_u16(
            before.channels.next_reliable(),
        )
        &&& after.channels.next_ordered() == before.channels.next_ordered()
        &&& after.channels.inflight() == before.channels.inflight().insert(
            before.send_sequence,
            (CHANNEL_RELIABLE, before.channels.next_reliable()),
        )
        &&& queued_after_send(
            before.channels.reliable_queue(),
            after.channels.reliable_queue(),
            before.channels.next_reliable(),
            payload,
            now_us,
        )
        &&& after.channels.ordered_queue() == before.channels.ordered_queue()
    }
    &&& reliability == Reliability::Ordered ==> {
        &&& after.channels.next_ordered() == next_u16(
            before.channels.next_ordered(),
        )
        &&& after.channels.next_reliable() == before.channels.next_reliable()
        &&& after.channels.inflight() == before.channels.inflight().insert(
            before.send_sequence,
            (CHANNEL_ORDERED, before.channels.next_ordered()),
        )
        &&& queued_after_send(
            before.channels.ordered_queue(),
            after.channels.ordered_queue(),
            before.channels.next_ordered(),
            payload,
            now_us,
        )
        &&& after.channels.reliable_queue() == before.channels.reliable_queue()
    }
}

/// What handling an incoming packet at `now_us` does to a connection and
/// which payloads it hands up, in delivery order.
pub open spec fn after_receive(
    before: ClientConnection,
    after: ClientConnection,
    packet: Packet,
    now_us: u64,
    out: Seq<PacketType>,
) -> bool {
    &&& same_identity(after, before)
    &&& after.send_sequence == before.send_sequence
    &&& after.last_receive_time_us == now_us
    &&& after.rtt_samples@ == before.rtt_samples@ + acked_list(
        before.ack_tracker.pending(),
        packet.header.ack,
        packet.header.ack_bitfield,
        now_us,
    )
    &&& after.ack_tracker.max_pending() == before.ack_tracker.max_pending()
    &&& after.ack_tracker.pending() == drop_acked_prefix(
        mark_acked(
            before.ack_tracker.pending(),
            packet.header.ack,
            packet.header.ack_bitfield,
        ),
    )
    &&& (after.channels.inflight(), after.channels.reliable_queue(), after.channels.ordered_queue()) == release_acked(
        (
            before.channels.inflight(),
            before.channels.reliable_queue(),
            before.channels.ordered_queue(),
        ),
        acked_list(
            before.ack_tracker.pending(),
            packet.header.ack,
            packet.header.ack_bitfield,
            now_us,
        ),
    )
    &&& after.channels.next_reliable() == before.channels.next_reliable()
    &&& after.channels.next_ordered() == before.channels.next_ordered()
    &&& before.receive_tracker.recent().contains(packet.header.sequence) ==> {
        &&& out == Seq::<PacketType>::empty()
        &&& after.receive_tracker == before.receive_tracker
        &&& after.channels.reliable_history() == before.channels.reliable_history()
        &&& after.channels.next_expected() == before.channels.next_expected()
        &&& after.channels.ordered_buffered() == before.channels.ordered_buffered()
    }
    &&& !before.receive_tracker.recent().contains(packet.header.sequence) ==> {
        &&& after.receive_tracker.recent() == window_after(
            before.receive_tracker.recent(),
            RECENT_SEQUENCE_WINDOW as nat,
            packet.header.sequence,
        )
        &&& (after.receive_tracker.last(), after.receive_tracker.bitfield())
            == ack_state_after(
            before.receive_tracker.last(),
            before.receive_tracker.bitfield(),
            packet.header.sequence,
        )
        &&& (out, after.channels.reliable_history(), after.channels.next_expected(), after.channels.ordered_buffered())
            == delivered(
            before.channels.reliable_history(),
            before.channels.next_expected(),
            before.channels.ordered_buffered(),
            packet.header,
            packet.payload,
        )
    }
}

/// `c` is a connection just opened for `addr` under `client_id`: connecting,
/// with the client's salt, nothing sent, received or acknowledged yet, and
/// last heard from at `now_us`. The server salt is left open.
pub open spec fn is_fresh(c: ClientConnection, addr: PeerAddr, client_id: u32, client_salt: u64, now_us: u64) -> bool {
    &&& c.addr == addr
    &&& c.client_id == client_id
    &&& c.state == ConnectionState::Connecting
    &&& c.client_salt == client_salt
    &&& c.last_command_ack == 0
    &&& c.last_acked_tick == 0
    &&& c.entity_id.is_none()
    &&& c.lobby_id.is_none()
    &&& c.last_receive_time_us == now_us
    &&& c.send_sequence == 0
    &&& c.ack_tracker.pending() == Seq::<PendingPacket>::empty()
    &&& c.ack_tracker.max_pending() == CONNECTION_ACK_CAPACITY
    &&& c.receive_tracker.last() == 0
    &&& c.receive_tracker.bitfield() == 0
    &&& c.receive_tracker.recent() == Seq::<u32>::empty()
    &&& c.channels.is_initial()
    &&& c.rtt_samples@ == Seq::<AckedPacket>::empty()
}

/// What resending the due reliable and ordered payloads at `now_us` does to a
/// connection and which packets it yields, reliable ones first.
pub open spec fn resent(
    before: ClientConnection,
    after: ClientConnection,
    now_us: u64,
    timeout_us: u64,
    out: Seq<Packet>,
) -> bool {
    &&& after.rtt_samples == before.rtt_samples
    &&& same_identity(after, before)
    &&& after.last_receive_time_us == before.last_receive_time_us
    &&& after.ack_tracker == before.ack_tracker
    &&& after.receive_tracker == before.receive_tracker
    &&& after.channels.next_reliable() == before.channels.next_reliable()
    &&& after.channels.next_ordered() == before.channels.next_ordered()
    &&& after.channels.reliable_history() == before.channels.reliable_history()
    &&& after.channels.next_expected() == before.channels.next_expected()
    &&& after.channels.ordered_buffered() == before.channels.ordered_buffered()
    &&& ({
        let rq = before.channels.reliable_queue();
        let oq = before.channels.ordered_queue();
        let first = before.send_sequence;
        let nr = due_count(rq, now_us, timeout_us);
        let no = due_count(oq, now_us, timeout_us);
        let ack = before.receive_tracker.last();
        let bf = before.receive_tracker.bitfield();
        let headers = resend_headers(rq, now_us, timeout_us, first, CHANNEL_RELIABLE, ack, bf)
            + resend_headers(
            oq,
            now_us,
            timeout_us,
            advance_u32(first, nr),
            CHANNEL_ORDERED,
            ack,
            bf,
        );
        let payloads = due_payloads(rq, now_us, timeout_us) + due_payloads(
            oq,
            now_us,
            timeout_us,
        );
        &&& after.channels.reliable_queue() == refreshed(rq, now_us, timeout_us)
        &&& after.channels.ordered_queue() == refreshed(oq, now_us, timeout_us)
        &&& after.send_sequence == advance_u32(advance_u32(first, nr), no)
        &&& after.channels.inflight() == resend_inflight(
            resend_inflight(
                before.channels.inflight(),
                rq,
                now_us,
                timeout_us,
                first,
                CHANNEL_RELIABLE,
            ),
            oq,
            now_us,
            timeout_us,
            advance_u32(first, nr),
            CHANNEL_ORDERED,
        )
        &&& out.len() == nr + no
        &&& forall|k: int|
            0 <= k < out.len() ==> (#[trigger] out[k]).header == headers[k]
                && same_payload(out[k].payload, payloads[k])
    })
}

/// One endpoint of the reliability layer: sequencing, acknowledgement,
/// resending, duplicate filtering and in-order delivery for one peer.
#[derive(Debug)]
pub struct ClientConnection {
    pub addr: PeerAddr,
    pub client_id: u32,
    pub state: ConnectionState,
    pub client_salt: u64,
    pub server_salt: u64,
    pub last_command_ack: u32,
    pub last_acked_tick: u32,
    pub entity_id: Option<u32>,
    pub lobby_id: Option<u64>,
    /// When a packet from the peer last arrived, in microseconds of the caller's clock.
    pub last_receive_time_us: u64,
    pub send_sequence: u32,
    pub ack_tracker: AckTracker,
    pub receive_tracker: ReceiveTracker,
    pub channels: ChannelState,
    /// Round trips of the packets acknowledged since the caller last took
    /// them, oldest first, for smoothing the connection's round-trip time.
    pub rtt_samples: Vec<AckedPacket>,
}

impl ClientConnection {
    pub open spec fn wf(&self) -> bool {
        &&& self.ack_tracker.wf()
        &&& self.ack_tracker.max_pending() > 0
        &&& self.receive_tracker.wf()
        &&& self.channels.reliable_history().len() <= RELIABLE_HISTORY_SIZE
    }

    /// A fresh connection in the `Connecting` state; the server salt is random.
    pub fn new(addr: PeerAddr, client_id: u32, client_salt: u64, now_us: u64) -> (c: Self)
        ensures
            c.wf(),
            is_fresh(c, addr, client_id, client_salt, now_us),
    {
        ClientConnection {
            addr,
            client_id,
            state: ConnectionState::Connecting,
            client_salt,
            server_salt: rand_u64(),
            last_command_ack: 0,
            last_acked_tick: 0,
            entity_id: None,
            lobby_id: None,
            last_receive_time_us: now_us,
            send_sequence: 0,
            ack_tracker: AckTracker::new(CONNECTION_ACK_CAPACITY),
            receive_tracker: ReceiveTracker::new(),
            channels: ChannelState::new(),
            rtt_samples: Vec::new(),
        }
    }

    /// The challenge value both sides derive: client salt XOR server salt.
    pub fn combined_salt(&self) -> (r: u64)
        ensures
            r == self.client_salt ^ self.server_salt,
    {
        self.client_salt ^ self.server_salt
    }

    /// Whether more than `timeout_us` microseconds passed since the last packet.
    pub fn is_timed_out(&self, now_us: u64, timeout_us: u64) -> (r: bool)
        ensures
            r == (now_us >= self.last_receive_time_us && now_us - self.last_receive_time_us
                > timeout_us),
    {
        now_us >= self.last_receive_time_us && now_us - self.last_receive_time_us > timeout_us
    }

    /// Whether the connection has been idle for more than `timeout_secs` seconds at `now_us`.
    fn last_timed_out(&self, now_us: u64, timeout_secs: u64) -> (r: bool)
        ensures
            r == idle_too_long(self.last_receive_time_us, now_us, timeout_secs),
    {
        now_us >= self.last_receive_time_us && exceeds_secs(
            now_us - self.last_receive_time_us,
            timeout_secs,
        )
    }

    /// Notes that a packet from the peer arrived at `now_us`.
    pub fn touch(&mut self, now_us: u64)
        ensures
            *final(self) == (ClientConnection { last_receive_time_us: now_us, ..*old(self) }),
    {
        self.last_receive_time_us = now_us;
    }
    /// Wraps `payload` in a packet with the next wire sequence and the current
    /// acknowledgement data. Reliable and ordered payloads also get the next
    /// sequence of their channel and are kept until acknowledged.
    pub fn send_packet(&mut self, payload: PacketType, reliability: Reliability, now_us: u64) -> (p:
        Packet)
        requires
            old(self).wf(),
        ensures
            final(self).wf(),
            after_send(*old(self), *final(self), payload, reliability, now_us, p),
    {
        let (ack, ack_bitfield) = self.receive_tracker.ack_data();
        let sequence = self.send_sequence;
        self.send_sequence = self.send_sequence.wrapping_add(1);

        self.ack_tracker.track_packet(sequence, now_us);

        let (channel, channel_seq) = match reliability {
            Reliability::Unreliable => (CHANNEL_UNRELIABLE, 0u16),
            Reliability::Reliable => {
                let seq = self.channels.next_reliable_seq;
                self.channels.next_reliable_seq = self.channels.next_reliable_seq.wrapping_add(1);
                remove_seq(&mut self.channels.pending_reliable, seq);
                let ghost kept = self.channels.pending_reliable@;
                self.channels.pending_reliable.push(
                    PendingMessage { channel_seq: seq, payload: payload.clone(), last_send_us: now_us },
                );
                assert(self.channels.pending_reliable@.drop_last() =~= kept);
                self.channels.inflight_packets.insert(sequence, (CHANNEL_RELIABLE, seq));
                (CHANNEL_RELIABLE, seq)
            },
            Reliability::Ordered => {
                let seq = self.channels.next_ordered_seq;
                self.channels.next_ordered_seq = self.channels.next_ordered_seq.wrapping_add(1);
                remove_seq(&mut self.channels.pending_ordered, seq);
                let ghost kept = self.channels.pending_ordered@;
                self.channels.pending_ordered.push(
                    PendingMessage { channel_seq: seq, payload: payload.clone(), last_send_us: now_us },
                );
                assert(self.channels.pending_ordered@.drop_last() =~= kept);
                self.channels.inflight_packets.insert(sequence, (CHANNEL_ORDERED, seq));
                (CHANNEL_ORDERED, seq)
            },
        };

        let header = PacketHeader::new(sequence, ack, ack_bitfield, channel, channel_seq);
        Packet::new(header, payload)
    }
    /// Handles an incoming packet: records the arrival time, applies the
    /// acknowledgements it carries (releasing acknowledged reliable and ordered
    /// payloads), filters wire duplicates, and returns the payloads that are
    /// ready for the application, in delivery order.
    pub fn process_packet(&mut self, packet: Packet, now_us: u64) -> (out: Vec<PacketType>)
        requires
            old(self).wf(),
            old(self).receive_tracker.can_record_spec(packet.header.sequence),
        ensures
            final(self).wf(),
            after_receive(*old(self), *final(self), packet, now_us, out@),
    {
        self.touch(now_us);
        let header = packet.header;
        let acked = self.ack_tracker.process_ack(header.ack, header.ack_bitfield, now_us);
        self.channels.release(&acked);
        let mut samples = acked;
        self.rtt_samples.append(&mut samples);
        if !self.receive_tracker.record_received(header.sequence) {
            return Vec::new();
        }
        self.channels.deliver(header, packet.payload)
    }
    /// Resends every reliable, then every ordered, payload not sent for more
    /// than `timeout_us`: each resend takes the next wire sequence and the
    /// current acknowledgement data and is tracked as in flight.
    pub fn collect_resends(&mut self, now_us: u64, timeout_us: u64) -> (out: Vec<Packet>)
        requires
            old(self).wf(),
        ensures
            final(self).wf(),
            resent(*old(self), *final(self), now_us, timeout_us, out@),
    {
        let (ack, ack_bitfield) = self.receive_tracker.ack_data();
        let ghost rq = self.channels.pending_reliable@;
        let ghost oq = self.channels.pending_ordered@;
        let ghost first = self.send_sequence;
        let mut packets = resend_due(
            &mut self.channels.pending_reliable,
            &mut self.send_sequence,
            &mut self.channels.inflight_packets,
            CHANNEL_RELIABLE,
            ack,
            ack_bitfield,
            now_us,
            timeout_us,
        );
        let ghost reliable_out = packets@;
        let mut ordered = resend_due(
            &mut self.channels.pending_ordered,
            &mut self.send_sequence,
            &mut self.channels.inflight_packets,
            CHANNEL_ORDERED,
            ack,
            ack_bitfield,
            now_us,
            timeout_us,
        );
        let ghost ordered_out = ordered@;
        packets.append(&mut ordered);
        proof {
            let nr = due_count(rq, now_us, timeout_us);
            lemma_resend_lens(rq, now_us, timeout_us, first, CHANNEL_RELIABLE, ack, ack_bitfield);
            lemma_resend_lens(
                oq,
                now_us,
                timeout_us,
                advance_u32(first, nr),
                CHANNEL_ORDERED,
                ack,
                ack_bitfield,
            );
            assert forall|k: int| 0 <= k < packets@.len() implies (#[trigger] packets@[k]).header
                == (resend_headers(rq, now_us, timeout_us, first, CHANNEL_RELIABLE, ack, ack_bitfield)
                + resend_headers(
                oq,
                now_us,
                timeout_us,
                advance_u32(first, nr),
                CHANNEL_ORDERED,
                ack,
                ack_bitfield,
            ))[k] && same_payload(
                packets@[k].payload,
                (due_payloads(rq, now_us, timeout_us) + due_payloads(oq, now_us, timeout_us))[k],
            ) by {
                if k < reliable_out.len() {
                    assert(packets@[k] == reliable_out[k]);
                } else {
                    assert(packets@[k] == ordered_out[k - reliable_out.len()]);
                }
            }
        }
        packets
    }
}

/// `elapsed_us` exceeds `timeout_secs` seconds.
fn exceeds_secs(elapsed_us: u64, timeout_secs: u64) -> (r: bool)
    ensures
        r == (elapsed_us > timeout_secs * 1_000_000),
{
    if timeout_secs > 18_446_744_073_709 {
        assert(timeout_secs * 1_000_000 > u64::MAX) by (nonlinear_arith)
            requires
                timeout_secs > 18_446_744_073_709,
        ;
        false
    } else {
        assert(timeout_secs * 1_000_000 <= u64::MAX) by (nonlinear_arith)
            requires
                timeout_secs <= 18_446_744_073_709,
        ;
        elapsed_us > timeout_secs * 1_000_000
    }
}

/// Filtering a prefix one element longer adds that element when it passes.
pub proof fn lemma_filter_take_step<T>(s: Seq<T>, pred: spec_fn(T) -> bool, i: int)
    requires
        0 <= i < s.len(),
    ensures
        s.take(i + 1).filter(pred) == (if pred(s[i]) {
            s.take(i).filter(pred).push(s[i])
        } else {
            s.take(i).filter(pred)
        }),
{
    reveal(Seq::filter);
    assert(s.take(i + 1).drop_last() =~= s.take(i));
    assert(s.take(i + 1).last() == s[i]);
}

/// Connections of a server, each with a distinct client id and address.
#[derive(Debug)]
pub struct ConnectionManager {
    clients: Vec<ClientConnection>,
    next_client_id: u32,
    max_clients: usize,
    timeout_secs: u64,
}

/// Index of the connection with address `addr` in `s`, if any (the first one).
pub open spec fn index_of_addr(s: Seq<ClientConnection>, addr: PeerAddr) -> Option<int>
    decreases s.len(),
{
    if s.len() == 0 {
        None
    } else {
        match index_of_addr(s.drop_last(), addr) {
            Some(i) => Some(i),
            None => if s.last().addr == addr {
                Some(s.len() - 1)
            } else {
                None
            },
        }
    }
}

/// Index of the connection with client id `id` in `s`, if any (the first one).
pub open spec fn index_of_id(s: Seq<ClientConnection>, id: u32) -> Option<int>
    decreases s.len(),
{
    if s.len() == 0 {
        None
    } else {
        match index_of_id(s.drop_last(), id) {
            Some(i) => Some(i),
            None => if s.last().client_id == id {
                Some(s.len() - 1)
            } else {
                None
            },
        }
    }
}

pub proof fn lemma_index_of_addr(s: Seq<ClientConnection>, addr: PeerAddr)
    ensures
        match index_of_addr(s, addr) {
            Some(i) => 0 <= i < s.len() && s[i].addr == addr && forall|j: int|
                0 <= j < i ==> s[j].addr != addr,
            None => forall|j: int| 0 <= j < s.len() ==> s[j].addr != addr,
        },
    decreases s.len(),
{
    if s.len() > 0 {
        let p = s.drop_last();
        lemma_index_of_addr(p, addr);
        assert(forall|j: int| 0 <= j < p.len() ==> p[j] == s[j]);
    }
}

pub proof fn lemma_index_of_id(s: Seq<ClientConnection>, id: u32)
    ensures
        match index_of_id(s, id) {
            Some(i) => 0 <= i < s.len() && s[i].client_id == id && forall|j: int|
                0 <= j < i ==> s[j].client_id != id,
            None => forall|j: int| 0 <= j < s.len() ==> s[j].client_id != id,
        },
    decreases s.len(),
{
    if s.len() > 0 {
        let p = s.drop_last();
        lemma_index_of_id(p, id);
        assert(forall|j: int| 0 <= j < p.len() ==> p[j] == s[j]);
    }
}

/// Whether the connection idle since `last_us` has exceeded `timeout_secs` at `now_us`.
pub open spec fn idle_too_long(last_us: u64, now_us: u64, timeout_secs: u64) -> bool {
    now_us >= last_us && (now_us - last_us) > timeout_secs * 1_000_000
}

fn find_addr(clients: &Vec<ClientConnection>, addr: PeerAddr) -> (r: Option<usize>)
    ensures
        r matches Some(i) ==> index_of_addr(clients@, addr) == Some(i as int) && i
            < clients@.len() && clients@[i as int].addr == addr,
        r is None ==> index_of_addr(clients@, addr) is None,
{
    proof {
        lemma_index_of_addr(clients@, addr);
    }
    let mut i: usize = 0;
    while i < clients.len()
        invariant
            i <= clients@.len(),
            forall|j: int| 0 <= j < i ==> clients@[j].addr != addr,
        decreases clients@.len() - i,
    {
        if clients[i].addr == addr {
            proof {
                lemma_index_of_addr(clients@, addr);
                match index_of_addr(clients@, addr) {
                    Some(k) => {
                        if k < i {
                        } else if k > i {
                            assert(clients@[i as int].addr == addr);
                        }
                    },
                    None => {
                        assert(clients@[i as int].addr == addr);
                    },
                }
            }
            return Some(i);
        }
        i += 1;
    }
    proof {
        lemma_index_of_addr(clients@, addr);
    }
    None
}

fn find_id(clients: &Vec<ClientConnection>, id: u32) -> (r: Option<usize>)
    ensures
        r matches Some(i) ==> index_of_id(clients@, id) == Some(i as int) && i < clients@.len()
            && clients@[i as int].client_id == id,
        r is None ==> index_of_id(clients@, id) is None,
{
    proof {
        lemma_index_of_id(clients@, id);
    }
    let mut i: usize = 0;
    while i < clients.len()
        invariant
            i <= clients@.len(),
            forall|j: int| 0 <= j < i ==> clients@[j].client_id != id,
        decreases clients@.len() - i,
    {
        if clients[i].client_id == id {
            proof {
                lemma_index_of_id(clients@, id);
                match index_of_id(clients@, id) {
                    Some(k) => {
                        if k < i {
                        } else if k > i {
                            assert(clients@[i as int].client_id == id);
                        }
                    },
                    None => {
                        assert(clients@[i as int].client_id == id);
                    },
                }
            }
            return Some(i);
        }
        i += 1;
    }
    proof {
        lemma_index_of_id(clients@, id);
    }
    None
}

impl ConnectionManager {
    /// The connections, in the order they were created.
    pub closed spec fn clients(&self) -> Seq<ClientConnection> {
        self.clients@
    }

    /// The client id the next new connection gets.
    pub closed spec fn next_id(&self) -> u32 {
        self.next_client_id
    }

    pub closed spec fn capacity(&self) -> nat {
        self.max_clients as nat
    }

    pub closed spec fn timeout(&self) -> u64 {
        self.timeout_secs
    }

    /// Every connection is well formed; client ids and addresses are distinct
    /// and every id is below the next one handed out.
    pub open spec fn wf(&self) -> bool {
        &&& forall|i: int| 0 <= i < self.clients().len() ==> (#[trigger] self.clients()[i]).wf()
        &&& forall|i: int, j: int|
            0 <= i < j < self.clients().len() ==> (#[trigger] self.clients()[i]).client_id
                != (#[trigger] self.clients()[j]).client_id && self.clients()[i].addr
                != self.clients()[j].addr
        &&& forall|i: int|
            0 <= i < self.clients().len() ==> (#[trigger] self.clients()[i]).client_id
                < self.next_id()
    }

    pub fn new(max_clients: usize) -> (m: Self)
        ensures
            m.wf(),
            m.clients() == Seq::<ClientConnection>::empty(),
            m.next_id() == 1,
            m.capacity() == max_clients,
            m.timeout() == DEFAULT_TIMEOUT_SECS,
    {
        ConnectionManager {
            clients: Vec::new(),
            next_client_id: 1,
            max_clients,
            timeout_secs: DEFAULT_TIMEOUT_SECS,
        }
    }

    pub fn with_timeout(max_clients: usize, timeout_secs: u64) -> (m: Self)
        ensures
            m.wf(),
            m.clients() == Seq::<ClientConnection>::empty(),
            m.next_id() == 1,
            m.capacity() == max_clients,
            m.timeout() == timeout_secs,
    {
        ConnectionManager { clients: Vec::new(), next_client_id: 1, max_clients, timeout_secs }
    }

    /// The connection of `addr`; a new `Connecting` one when there is none and
    /// the server is not full, or `Err("Server full")`.
    pub fn get_or_create_pending(&mut self, addr: PeerAddr, client_salt: u64, now_us: u64) -> (r:
        Result<&mut ClientConnection, &'static str>)
        requires
            old(self).wf(),
            index_of_addr(old(self).clients(), addr) is None && old(self).clients().len()
                < old(self).capacity() ==> old(self).next_id() < u32::MAX,
        ensures
            final(self).capacity() == old(self).capacity(),
            final(self).timeout() == old(self).timeout(),
            match index_of_addr(old(self).clients(), addr) {
                Some(i) => {
                    &&& r is Ok
                    &&& *r->Ok_0 == old(self).clients()[i]
                    &&& final(self).clients() == old(self).clients().update(i, *final(r->Ok_0))
                    &&& final(self).next_id() == old(self).next_id()
                },
                None => if old(self).clients().len() >= old(self).capacity() {
                    &&& r is Err
                    &&& r->Err_0@ == "Server full"@
                    &&& final(self).clients() == old(self).clients()
                    &&& final(self).next_id() == old(self).next_id()
                } else {
                    let c = *r->Ok_0;
                    &&& r is Ok
                    &&& c.wf()
                    &&& is_fresh(c, addr, old(self).next_id(), client_salt, now_us)
                    &&& final(self).clients() == old(self).clients().push(*final(r->Ok_0))
                    &&& final(self).next_id() == old(self).next_id() + 1
                },
            },
    {
        match find_addr(&self.clients, addr) {
            Some(i) => {
                return Ok(&mut self.clients[i]);
            },
            None => {},
        }
        if self.clients.len() >= self.max_clients {
            return Err("Server full");
        }
        let client_id = self.next_client_id;
        self.next_client_id += 1;
        let connection = ClientConnection::new(addr, client_id, client_salt, now_us);
        self.clients.push(connection);
        let last = self.clients.len() - 1;
        Ok(&mut self.clients[last])
    }

    pub fn get_by_addr(&self, addr: &PeerAddr) -> (r: Option<&ClientConnection>)
        ensures
            match index_of_addr(self.clients(), *addr) {
                Some(i) => r == Some(&self.clients()[i]),
                None => r is None,
            },
    {
        match find_addr(&self.clients, *addr) {
            Some(i) => Some(&self.clients[i]),
            None => None,
        }
    }

    pub fn get_by_addr_mut(&mut self, addr: &PeerAddr) -> (r: Option<&mut ClientConnection>)
        ensures
            final(self).next_id() == old(self).next_id(),
            final(self).capacity() == old(self).capacity(),
            final(self).timeout() == old(self).timeout(),
            match index_of_addr(old(self).clients(), *addr) {
                Some(i) => r is Some && *r->0 == old(self).clients()[i] && final(self).clients()
                    == old(self).clients().update(i, *final(r->0)),
                None => r is None && final(self).clients() == old(self).clients(),
            },
    {
        match find_addr(&self.clients, *addr) {
            Some(i) => Some(&mut self.clients[i]),
            None => None,
        }
    }

    pub fn get(&self, client_id: u32) -> (r: Option<&ClientConnection>)
        ensures
            match index_of_id(self.clients(), client_id) {
                Some(i) => r == Some(&self.clients()[i]),
                None => r is None,
            },
    {
        match find_id(&self.clients, client_id) {
            Some(i) => Some(&self.clients[i]),
            None => None,
        }
    }

    pub fn get_mut(&mut self, client_id: u32) -> (r: Option<&mut ClientConnection>)
        ensures
            final(self).next_id() == old(self).next_id(),
            final(self).capacity() == old(self).capacity(),
            final(self).timeout() == old(self).timeout(),
            match index_of_id(old(self).clients(), client_id) {
                Some(i) => r is Some && *r->0 == old(self).clients()[i] && final(self).clients()
                    == old(self).clients().update(i, *final(r->0)),
                None => r is None && final(self).clients() == old(self).clients(),
            },
    {
        match find_id(&self.clients, client_id) {
            Some(i) => Some(&mut self.clients[i]),
            None => None,
        }
    }

    /// Removes and returns the connection of `client_id`.
    pub fn remove(&mut self, client_id: u32) -> (r: Option<ClientConnection>)
        requires
            old(self).wf(),
        ensures
            final(self).wf(),
            final(self).next_id() == old(self).next_id(),
            final(self).capacity() == old(self).capacity(),
            final(self).timeout() == old(self).timeout(),
            match index_of_id(old(self).clients(), client_id) {
                Some(i) => r == Some(old(self).clients()[i]) && final(self).clients() == old(
                    self,
                ).clients().remove(i),
                None => r is None && final(self).clients() == old(self).clients(),
            },
    {
        match find_id(&self.clients, client_id) {
            Some(i) => {
                let c = self.clients.remove(i);
                Some(c)
            },
            None => None,
        }
    }

    /// Removes and returns the connection of `addr`.
    pub fn remove_by_addr(&mut self, addr: &PeerAddr) -> (r: Option<ClientConnection>)
        requires
            old(self).wf(),
        ensures
            final(self).wf(),
            final(self).next_id() == old(self).next_id(),
            final(self).capacity() == old(self).capacity(),
            final(self).timeout() == old(self).timeout(),
            match index_of_addr(old(self).clients(), *addr) {
                Some(i) => r == Some(old(self).clients()[i]) && final(self).clients() == old(
                    self,
                ).clients().remove(i),
                None => r is None && final(self).clients() == old(self).clients(),
            },
    {
        match find_addr(&self.clients, *addr) {
            Some(i) => {
                let c = self.clients.remove(i);
                Some(c)
            },
            None => None,
        }
    }

    /// The connections, in creation order.
    pub fn iter(&self) -> (r: &[ClientConnection])
        ensures
            r@ == self.clients(),
    {
        self.clients.as_slice()
    }

    /// Removes every connection idle for longer than the timeout at `now_us`
    /// and returns their client ids, in creation order.
    pub fn cleanup_timed_out(&mut self, now_us: u64) -> (removed: Vec<u32>)
        requires
            old(self).wf(),
        ensures
            final(self).wf(),
            final(self).next_id() == old(self).next_id(),
            final(self).capacity() == old(self).capacity(),
            final(self).timeout() == old(self).timeout(),
            final(self).clients() == old(self).clients().filter(
                |c: ClientConnection|
                    !idle_too_long(c.last_receive_time_us, now_us, old(self).timeout()),
            ),
            removed@ == old(self).clients().filter(
                |c: ClientConnection|
                    idle_too_long(c.last_receive_time_us, now_us, old(self).timeout()),
            ).map_values(|c: ClientConnection| c.client_id),
    {
        let ghost orig = self.clients@;
        let ghost keep = |c: ClientConnection|
            !idle_too_long(c.last_receive_time_us, now_us, self.timeout_secs);
        let ghost drop = |c: ClientConnection|
            idle_too_long(c.last_receive_time_us, now_us, self.timeout_secs);
        let ghost id_of = |c: ClientConnection| c.client_id;
        let mut rest: Vec<ClientConnection> = Vec::new();
        std::mem::swap(&mut rest, &mut self.clients);
        let mut removed: Vec<u32> = Vec::new();
        let mut kept: Vec<ClientConnection> = Vec::new();
        let n = rest.len();
        let mut i: usize = 0;
        while i < n
            invariant
                n == orig.len(),
                i <= n,
                keep == (|c: ClientConnection|
                    !idle_too_long(c.last_receive_time_us, now_us, old(self).timeout_secs)),
                drop == (|c: ClientConnection|
                    idle_too_long(c.last_receive_time_us, now_us, old(self).timeout_secs)),
                id_of == (|c: ClientConnection| c.client_id),
                rest@ == orig.skip(i as int),
                kept@ == orig.take(i as int).filter(keep),
                removed@ == orig.take(i as int).filter(drop).map_values(id_of),
                self.next_client_id == old(self).next_client_id,
                self.max_clients == old(self).max_clients,
                self.timeout_secs == old(self).timeout_secs,
                forall|x: int|
                    #![trigger kept@[x]]
                    0 <= x < kept@.len() ==> exists|j: int|
                        0 <= j < i && #[trigger] orig[j] == kept@[x],
                forall|x: int|
                    0 <= x < kept@.len() ==> (#[trigger] kept@[x]).wf() && kept@[x].client_id
                        < self.next_client_id,
                forall|x: int, y: int|
                    0 <= x < y < kept@.len() ==> (#[trigger] kept@[x]).client_id != (
                    #[trigger] kept@[y]).client_id && kept@[x].addr != kept@[y].addr,
                forall|j: int| 0 <= j < orig.len() ==> (#[trigger] orig[j]).wf(),
                forall|j: int, k: int|
                    0 <= j < k < orig.len() ==> (#[trigger] orig[j]).client_id != (
                    #[trigger] orig[k]).client_id && orig[j].addr != orig[k].addr,
                forall|j: int| 0 <= j < orig.len() ==> (#[trigger] orig[j]).client_id
                    < self.next_client_id,
            decreases n - i,
        {
            proof {
                lemma_filter_take_step(orig, keep, i as int);
                lemma_filter_take_step(orig, drop, i as int);
                assert(orig.take(i + 1).drop_last() =~= orig.take(i as int));
                assert(orig.take(i + 1).last() == orig[i as int]);
                assert(orig.skip(i as int)[0] == orig[i as int]);
                assert(orig.skip(i as int).remove(0) =~= orig.skip(i + 1));
            }
            let c = rest.remove(0);
            let idle = c.last_timed_out(now_us, self.timeout_secs);
            if idle {
                removed.push(c.client_id);
                assert(removed@ =~= orig.take(i + 1).filter(drop).map_values(id_of));
                proof {
                    assert forall|x: int| #![trigger kept@[x]] 0 <= x < kept@.len() implies exists|j: int|
                        0 <= j < i + 1 && #[trigger] orig[j] == kept@[x] by {
                        let j = choose|j: int| 0 <= j < i && #[trigger] orig[j] == kept@[x];
                        assert(orig[j] == kept@[x]);
                    }
                }
            } else {
                let ghost before = kept@;
                kept.push(c);
                assert(removed@ =~= orig.take(i + 1).filter(drop).map_values(id_of));
                proof {
                    assert forall|x: int| 0 <= x < before.len() implies (#[trigger] before[x]).client_id
                        != orig[i as int].client_id && before[x].addr != orig[i as int].addr by {
                        let j = choose|j: int| 0 <= j < i && #[trigger] orig[j] == before[x];
                        assert(orig[j] == before[x]);
                    }
                    assert forall|x: int| #![trigger kept@[x]] 0 <= x < kept@.len() implies exists|j: int|
                        0 <= j < i + 1 && #[trigger] orig[j] == kept@[x] by {
                        if x < before.len() {
                            let j = choose|j: int| 0 <= j < i && #[trigger] orig[j] == before[x];
                            assert(orig[j] == kept@[x]);
                        } else {
                            assert(orig[i as int] == kept@[x]);
                        }
                    }
                }
            }
            i += 1;
        }
        proof {
            assert(orig.take(n as int) =~= orig);
        }
        self.clients = kept;
        removed
    }

    /// Number of connections in the `Connected` state.
    pub fn connected_count(&self) -> (n: usize)
        ensures
            n == self.clients().filter(
                |c: ClientConnection| c.state == ConnectionState::Connected,
            ).len(),
    {
        let ghost connected = |c: ClientConnection| c.state == ConnectionState::Connected;
        let mut n: usize = 0;
        let mut i: usize = 0;
        while i < self.clients.len()
            invariant
                i <= self.clients@.len(),
                connected == (|c: ClientConnection| c.state == ConnectionState::Connected),
                n == self.clients@.take(i as int).filter(connected).len(),
            decreases self.clients@.len() - i,
        {
            proof {
                lemma_filter_take_step(self.clients@, connected, i as int);
                assert(self.clients@.take(i + 1).drop_last() =~= self.clients@.take(i as int));
                self.clients@.take(i as int).lemma_filter_len(connected);
            }
            if self.clients[i].state == ConnectionState::Connected {
                n += 1;
            }
            i += 1;
        }
        assert(self.clients@.take(i as int) =~= self.clients@);
        n
    }

    /// The id the next new connection will get.
    pub fn next_client_id(&self) -> (r: u32)
        ensures
            r == self.next_id(),
    {
        self.next_client_id
    }

    pub fn total_count(&self) -> (n: usize)
        ensures
            n == self.clients().len(),
    {
        self.clients.len()
    }
}

} // verus!
