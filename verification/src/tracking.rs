use std::collections::VecDeque;

use vstd::prelude::*;

use crate::protocol::{seq_gt, sequence_greater_than, wrap_diff};

verus! {

/// Whether `value` occurs in `items`.
fn deque_contains_u32(items: &VecDeque<u32>, value: u32) -> (r: bool)
    ensures
        r == items@.contains(value),
{
    let mut i: usize = 0;
    while i < items.len()
        invariant
            i <= items@.len(),
            forall|j: int| 0 <= j < i ==> items@[j] != value,
        decreases items@.len() - i,
    {
        if items[i] == value {
            return true;
        }
        i += 1;
    }
    false
}

// ---------------------------------------------------------------------------
// Receive side
// ---------------------------------------------------------------------------

/// How many recently received sequence numbers are remembered for duplicate detection.
pub const RECENT_SEQUENCE_WINDOW: usize = 128;

/// Remembers which wire sequences arrived, to filter duplicates and to build
/// the `(ack, ack_bitfield)` pair sent back to the peer.
#[derive(Debug)]
pub struct ReceiveTracker {
    last_received: u32,
    received_bitfield: u32,
    recent_sequences: VecDeque<u32>,
    max_recent: usize,
}

/// The `(last_received, received_bitfield)` pair after `seq` is recorded.
///
/// A newer sequence shifts the field by the distance and sets bit 0 (or
/// clears the field when the jump exceeds 32); an older one within 32 of the
/// latest sets bit `distance - 1`.
pub open spec fn ack_state_after(last: u32, bitfield: u32, seq: u32) -> (u32, u32) {
    if seq_gt(seq, last) {
        let diff = wrap_diff(seq, last);
        if diff <= 32 {
            (seq, (bitfield << diff) | 1u32)
        } else {
            (seq, 0u32)
        }
    } else {
        let diff = wrap_diff(last, seq);
        if 0 < diff && diff <= 32 {
            (last, bitfield | (1u32 << ((diff - 1) as u32)))
        } else {
            (last, bitfield)
        }
    }
}

/// The window of recent sequences after `seq` is appended to `recent`,
/// dropping the oldest entry when the window is full.
pub open spec fn window_after<T>(recent: Seq<T>, max: nat, seq: T) -> Seq<T> {
    if recent.len() >= max {
        recent.drop_first().push(seq)
    } else {
        recent.push(seq)
    }
}

impl ReceiveTracker {
    pub closed spec fn last(&self) -> u32 {
        self.last_received
    }

    pub closed spec fn bitfield(&self) -> u32 {
        self.received_bitfield
    }

    /// The recently received sequences, oldest first.
    pub closed spec fn recent(&self) -> Seq<u32> {
        self.recent_sequences@
    }

    pub closed spec fn wf(&self) -> bool {
        &&& self.max_recent == RECENT_SEQUENCE_WINDOW
        &&& self.recent_sequences@.len() <= self.max_recent
    }

    /// Recording `seq` would not shift the 32-bit bitfield by its full width,
    /// which a jump of exactly 32 sequences ahead would do (a shift overflow).
    pub open spec fn can_record_spec(&self, seq: u32) -> bool {
        self.recent().contains(seq) || !(seq_gt(seq, self.last()) && wrap_diff(seq, self.last())
            == 32)
    }

    pub fn new() -> (t: Self)
        ensures
            t.wf(),
            t.last() == 0,
            t.bitfield() == 0,
            t.recent() == Seq::<u32>::empty(),
    {
        ReceiveTracker {
            last_received: 0,
            received_bitfield: 0,
            recent_sequences: VecDeque::with_capacity(RECENT_SEQUENCE_WINDOW),
            max_recent: RECENT_SEQUENCE_WINDOW,
        }
    }

    /// Whether `record_received(seq)` is defined on the current state.
    pub fn can_record(&self, seq: u32) -> (r: bool)
        requires
            self.wf(),
        ensures
            r == self.can_record_spec(seq),
    {
        if deque_contains_u32(&self.recent_sequences, seq) {
            return true;
        }
        !(sequence_greater_than(seq, self.last_received) && seq.wrapping_sub(self.last_received) == 32)
    }

    /// Records an arriving wire sequence. Returns `false` (and changes nothing)
    /// for a duplicate still in the recent window, `true` otherwise.
    pub fn record_received(&mut self, sequence: u32) -> (fresh: bool)
        requires
            old(self).wf(),
            old(self).can_record_spec(sequence),
        ensures
            final(self).wf(),
            fresh == !old(self).recent().contains(sequence),
            !fresh ==> *final(self) == *old(self),
            fresh ==> final(self).recent() == window_after(
                old(self).recent(),
                RECENT_SEQUENCE_WINDOW as nat,
                sequence,
            ),
            fresh ==> (final(self).last(), final(self).bitfield()) == ack_state_after(
                old(self).last(),
                old(self).bitfield(),
                sequence,
            ),
    {
        if deque_contains_u32(&self.recent_sequences, sequence) {
            return false;
        }
        if self.recent_sequences.len() >= self.max_recent {
            self.recent_sequences.pop_front();
        }
        self.recent_sequences.push_back(sequence);

        if sequence_greater_than(sequence, self.last_received) {
            let diff = sequence.wrapping_sub(self.last_received);
            if diff <= 32 {
                self.received_bitfield = (self.received_bitfield << diff) | 1;
            } else {
                self.received_bitfield = 0;
            }
            self.last_received = sequence;
        } else {
            let diff = self.last_received.wrapping_sub(sequence);
            if diff > 0 && diff <= 32 {
                self.received_bitfield = self.received_bitfield | (1u32 << (diff - 1));
            }
        }
        true
    }

    /// The `(ack, ack_bitfield)` pair to put in the next outgoing header.
    pub fn ack_data(&self) -> (r: (u32, u32))
        ensures
            r == (self.last(), self.bitfield()),
    {
        (self.last_received, self.received_bitfield)
    }
}

/// A packet recorded twice in a row is reported fresh the first time and a
/// duplicate the second time, and the second call leaves the tracker as it was.
pub proof fn lemma_duplicate_is_rejected(recent: Seq<u32>, seq: u32)
    requires
        recent.len() <= RECENT_SEQUENCE_WINDOW,
    ensures
        window_after(recent, RECENT_SEQUENCE_WINDOW as nat, seq).contains(seq),
{
    let w = window_after(recent, RECENT_SEQUENCE_WINDOW as nat, seq);
    assert(w[w.len() - 1] == seq);
}

/// After a newer sequence within 32 of the latest is recorded, it becomes the
/// acknowledged sequence and bit 0 of the field is set.
pub proof fn lemma_newer_sequence_is_acked(last: u32, bitfield: u32, seq: u32)
    requires
        seq_gt(seq, last),
        wrap_diff(seq, last) < 32,
    ensures
        ack_state_after(last, bitfield, seq).0 == seq,
        ack_state_after(last, bitfield, seq).1 & 1 == 1,
{
    let diff = wrap_diff(seq, last);
    assert(((bitfield << diff) | 1u32) & 1 == 1) by (bit_vector);
}

// ---------------------------------------------------------------------------
// Send side
// ---------------------------------------------------------------------------

/// A sent packet awaiting acknowledgement.
#[derive(Debug, Clone, Copy)]
pub struct PendingPacket {
    pub sequence: u32,
    /// When the packet was sent, in microseconds of the caller's clock.
    pub send_time_us: u64,
    pub acked: bool,
}

/// A packet newly acknowledged by an incoming header, with its round trip.
#[derive(Debug, Clone, Copy, PartialEq, Eq, Structural)]
pub struct AckedPacket {
    pub sequence: u32,
    /// Time from send to acknowledgement in microseconds (zero if the clock went backwards).
    pub rtt_us: u64,
}

/// The tracked packets after `seq` is sent at `now_us`: the oldest one is
/// forgotten when `max` packets are already tracked.
pub open spec fn pending_after_track(
    pending: Seq<PendingPacket>,
    max: nat,
    seq: u32,
    now_us: u64,
) -> Seq<PendingPacket> {
    (if pending.len() >= max {
        pending.drop_first()
    } else {
        pending
    }).push(PendingPacket { sequence: seq, send_time_us: now_us, acked: false })
}

/// Tracks sent wire sequences until the peer acknowledges them.
#[derive(Debug)]
pub struct AckTracker {
    pending: VecDeque<PendingPacket>,
    max_pending: usize,
}

/// Whether an incoming `(ack, ack_bitfield)` pair acknowledges sequence `s`:
/// `s` is the ack itself, or lies 1..=32 behind it with its bit set.
pub open spec fn covered_by_ack(s: u32, ack: u32, ack_bitfield: u32) -> bool {
    s == ack || (seq_gt(ack, s) && wrap_diff(ack, s) <= 32 && ack_bitfield & (1u32 << ((wrap_diff(
        ack,
        s,
    ) - 1) as u32)) != 0)
}

pub open spec fn newly_acked(p: PendingPacket, ack: u32, ack_bitfield: u32) -> bool {
    !p.acked && covered_by_ack(p.sequence, ack, ack_bitfield)
}

/// `a - b`, or zero when `b > a`.
pub open spec fn sat_sub(a: u64, b: u64) -> u64 {
    if a >= b {
        (a - b) as u64
    } else {
        0
    }
}

/// The packets of `pending` that `(ack, ack_bitfield)` newly acknowledges, in
/// order, with their round trips measured at `now_us`.
pub open spec fn acked_list(
    pending: Seq<PendingPacket>,
    ack: u32,
    ack_bitfield: u32,
    now_us: u64,
) -> Seq<AckedPacket>
    decreases pending.len(),
{
    if pending.len() == 0 {
        Seq::empty()
    } else {
        let rest = acked_list(pending.drop_last(), ack, ack_bitfield, now_us);
        let p = pending.last();
        if newly_acked(p, ack, ack_bitfield) {
            rest.push(AckedPacket { sequence: p.sequence, rtt_us: sat_sub(now_us, p.send_time_us) })
        } else {
            rest
        }
    }
}

/// `pending` with every newly acknowledged packet marked as acked.
pub open spec fn mark_acked(pending: Seq<PendingPacket>, ack: u32, ack_bitfield: u32) -> Seq<
    PendingPacket,
> {
    pending.map_values(
        |p: PendingPacket|
            if newly_acked(p, ack, ack_bitfield) {
                PendingPacket { acked: true, ..p }
            } else {
                p
            },
    )
}

/// `pending` without its leading run of acknowledged packets.
pub open spec fn drop_acked_prefix(pending: Seq<PendingPacket>) -> Seq<PendingPacket>
    decreases pending.len(),
{
    if pending.len() > 0 && pending[0].acked {
        drop_acked_prefix(pending.drop_first())
    } else {
        pending
    }
}

/// Number of packets of `pending` not yet acknowledged.
pub open spec fn unacked_in(pending: Seq<PendingPacket>) -> nat
    decreases pending.len(),
{
    if pending.len() == 0 {
        0
    } else {
        unacked_in(pending.drop_last()) + if pending.last().acked {
            0nat
        } else {
            1nat
        }
    }
}

proof fn lemma_drop_acked_prefix_len(s: Seq<PendingPacket>)
    ensures
        drop_acked_prefix(s).len() <= s.len(),
    decreases s.len(),
{
    if s.len() > 0 && s[0].acked {
        lemma_drop_acked_prefix_len(s.drop_first());
    }
}

proof fn lemma_unacked_le_len(s: Seq<PendingPacket>)
    ensures
        unacked_in(s) <= s.len(),
    decreases s.len(),
{
    if s.len() > 0 {
        lemma_unacked_le_len(s.drop_last());
    }
}

impl AckTracker {
    /// The packets awaiting acknowledgement, oldest first.
    pub closed spec fn pending(&self) -> Seq<PendingPacket> {
        self.pending@
    }

    pub closed spec fn max_pending(&self) -> nat {
        self.max_pending as nat
    }

    pub closed spec fn wf(&self) -> bool {
        self.pending@.len() <= self.max_pending
    }

    pub fn new(max_pending: usize) -> (t: Self)
        ensures
            t.wf(),
            t.pending() == Seq::<PendingPacket>::empty(),
            t.max_pending() == max_pending,
    {
        AckTracker { pending: VecDeque::with_capacity(max_pending), max_pending }
    }

    /// Starts tracking `sequence`, sent at `now_us`; when `max_pending` packets
    /// are already tracked the oldest one is forgotten.
    pub fn track_packet(&mut self, sequence: u32, now_us: u64)
        requires
            old(self).wf(),
            old(self).max_pending() > 0,
        ensures
            final(self).wf(),
            final(self).max_pending() == old(self).max_pending(),
            final(self).pending() == pending_after_track(
                old(self).pending(),
                old(self).max_pending(),
                sequence,
                now_us,
            ),
    {
        while self.pending.len() >= self.max_pending
            invariant
                self.max_pending == old(self).max_pending,
                self.max_pending > 0,
                old(self).pending@.len() <= self.max_pending,
                self.pending@ == old(self).pending@ || (old(self).pending@.len()
                    >= self.max_pending && self.pending@ == old(self).pending@.drop_first()),
            decreases self.pending@.len(),
        {
            self.pending.pop_front();
        }
        self.pending.push_back(PendingPacket { sequence, send_time_us: now_us, acked: false });
    }

    /// Marks every tracked packet that `(ack, ack_bitfield)` acknowledges,
    /// forgets the acknowledged packets at the front, and returns the newly
    /// acknowledged packets in order with their round trips.
    pub fn process_ack(&mut self, ack: u32, ack_bitfield: u32, now_us: u64) -> (acked: Vec<
        AckedPacket,
    >)
        requires
            old(self).wf(),
        ensures
            final(self).wf(),
            final(self).max_pending() == old(self).max_pending(),
            acked@ == acked_list(old(self).pending(), ack, ack_bitfield, now_us),
            final(self).pending() == drop_acked_prefix(
                mark_acked(old(self).pending(), ack, ack_bitfield),
            ),
    {
        let ghost orig = self.pending@;
        let mut acked: Vec<AckedPacket> = Vec::new();
        let mut marked: VecDeque<PendingPacket> = VecDeque::with_capacity(self.pending.len());
        let n = self.pending.len();
        let mut i: usize = 0;
        while i < n
            invariant
                n == orig.len(),
                i <= n,
                self.pending@ == orig,
                marked@ == mark_acked(orig, ack, ack_bitfield).take(i as int),
                acked@ == acked_list(orig.take(i as int), ack, ack_bitfield, now_us),
            decreases n - i,
        {
            let p = self.pending[i];
            let is_acked = if p.acked {
                false
            } else if p.sequence == ack {
                true
            } else if sequence_greater_than(ack, p.sequence) {
                let diff = ack.wrapping_sub(p.sequence);
                if diff <= 32 {
                    (ack_bitfield & (1u32 << (diff - 1))) != 0
                } else {
                    false
                }
            } else {
                false
            };
            proof {
                assert(orig.take(i + 1).drop_last() =~= orig.take(i as int));
                assert(orig.take(i + 1).last() == orig[i as int]);
            }
            if is_acked {
                let rtt = if now_us >= p.send_time_us {
                    now_us - p.send_time_us
                } else {
                    0
                };
                acked.push(AckedPacket { sequence: p.sequence, rtt_us: rtt });
                marked.push_back(PendingPacket { acked: true, ..p });
            } else {
                marked.push_back(p);
            }
            assert(marked@ =~= mark_acked(orig, ack, ack_bitfield).take(i + 1));
            i += 1;
        }
        proof {
            assert(orig.take(n as int) =~= orig);
            assert(mark_acked(orig, ack, ack_bitfield).take(n as int) =~= mark_acked(
                orig,
                ack,
                ack_bitfield,
            ));
        }
        let ghost all_marked = marked@;
        while marked.len() > 0 && marked[0].acked
            invariant
                drop_acked_prefix(marked@) == drop_acked_prefix(all_marked),
                all_marked.len() == orig.len(),
            decreases marked@.len(),
        {
            assert(marked@.drop_first() =~= marked@.subrange(1, marked@.len() as int));
            marked.pop_front();
        }
        proof {
            lemma_drop_acked_prefix_len(all_marked);
        }
        self.pending = marked;
        acked
    }

    /// Number of tracked packets not yet acknowledged.
    pub fn unacked_count(&self) -> (n: usize)
        ensures
            n == unacked_in(self.pending()),
    {
        let mut count: usize = 0;
        let mut i: usize = 0;
        while i < self.pending.len()
            invariant
                i <= self.pending@.len(),
                count == unacked_in(self.pending@.take(i as int)),
            decreases self.pending@.len() - i,
        {
            proof {
                assert(self.pending@.take(i + 1).drop_last() =~= self.pending@.take(i as int));
                lemma_unacked_le_len(self.pending@.take(i as int));
            }
            if !self.pending[i].acked {
                count += 1;
            }
            i += 1;
        }
        assert(self.pending@.take(i as int) =~= self.pending@);
        count
    }
}

} // verus!
