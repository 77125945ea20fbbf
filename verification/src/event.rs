use std::collections::VecDeque;

use vstd::prelude::*;

use crate::connection::lemma_filter_take_step;

verus! {

/// How the delivery of a game event is guaranteed.
#[derive(Debug, Clone, Copy, PartialEq, Eq, Structural)]
pub enum ReliabilityMode {
    Unreliable,
    UnreliableExpiring { ttl_ms: u64 },
    Reliable,
}

impl ReliabilityMode {
    pub fn is_reliable(&self) -> (r: bool)
        ensures
            r == (*self is Reliable),
    {
        match self {
            ReliabilityMode::Reliable => true,
            _ => false,
        }
    }

    /// The time to live of an expiring mode.
    pub fn ttl_ms(&self) -> (r: Option<u64>)
        ensures
            r == (match *self {
                ReliabilityMode::UnreliableExpiring { ttl_ms } => Some(ttl_ms),
                _ => None,
            }),
    {
        match self {
            ReliabilityMode::UnreliableExpiring { ttl_ms } => Some(*ttl_ms),
            _ => None,
        }
    }
}

/// Something that happened in the game and is announced to clients.
///
/// World positions are carried as the IEEE-754 bit patterns of their three
/// `f32` coordinates.
#[derive(Debug, Clone)]
pub enum GameEvent {
    PlayerKill { killer_id: u32, victim_id: u32, weapon_id: u8 },
    PlayerDeath { player_id: u32 },
    PlayerRespawn { player_id: u32, position: [u32; 3] },
    DamageDealt { attacker_id: u32, target_id: u32, damage: u16, hitbox: u8 },
    ProjectileFired { owner_id: u32, projectile_id: u32, weapon_id: u8 },
    ProjectileHit { projectile_id: u32, hit_entity_id: Option<u32>, position: [u32; 3] },
    ItemPickup { player_id: u32, item_id: u32, item_type: u8 },
    ItemDrop { player_id: u32, item_id: u32, position: [u32; 3] },
    ChatMessage { sender_id: u32, channel: u8, message: String },
    VoiceData { sender_id: u32, data: Vec<u8> },
    GameStateChange { new_state: u8 },
    RoundStart { round_number: u16 },
    RoundEnd { winning_team: u8 },
    ScoreUpdate { team_scores: [u16; 2] },
}

/// The delivery guarantee of each kind of event.
pub open spec fn reliability_of(e: GameEvent) -> ReliabilityMode {
    match e {
        GameEvent::ChatMessage { .. } => ReliabilityMode::Reliable,
        GameEvent::GameStateChange { .. } => ReliabilityMode::Reliable,
        GameEvent::RoundStart { .. } => ReliabilityMode::Reliable,
        GameEvent::RoundEnd { .. } => ReliabilityMode::Reliable,
        GameEvent::ScoreUpdate { .. } => ReliabilityMode::Reliable,
        GameEvent::PlayerRespawn { .. } => ReliabilityMode::Reliable,
        GameEvent::PlayerKill { .. } => ReliabilityMode::UnreliableExpiring { ttl_ms: 10_000 },
        GameEvent::PlayerDeath { .. } => ReliabilityMode::UnreliableExpiring { ttl_ms: 5_000 },
        GameEvent::ItemPickup { .. } => ReliabilityMode::UnreliableExpiring { ttl_ms: 5_000 },
        GameEvent::ItemDrop { .. } => ReliabilityMode::UnreliableExpiring { ttl_ms: 5_000 },
        GameEvent::DamageDealt { .. } => ReliabilityMode::Unreliable,
        GameEvent::ProjectileFired { .. } => ReliabilityMode::Unreliable,
        GameEvent::ProjectileHit { .. } => ReliabilityMode::Unreliable,
        GameEvent::VoiceData { .. } => ReliabilityMode::Unreliable,
    }
}

impl GameEvent {
    pub fn reliability(&self) -> (r: ReliabilityMode)
        ensures
            r == reliability_of(*self),
    {
        match self {
            GameEvent::ChatMessage { .. } => ReliabilityMode::Reliable,
            GameEvent::GameStateChange { .. } => ReliabilityMode::Reliable,
            GameEvent::RoundStart { .. } => ReliabilityMode::Reliable,
            GameEvent::RoundEnd { .. } => ReliabilityMode::Reliable,
            GameEvent::ScoreUpdate { .. } => ReliabilityMode::Reliable,
            GameEvent::PlayerRespawn { .. } => ReliabilityMode::Reliable,
            GameEvent::PlayerKill { .. } => ReliabilityMode::UnreliableExpiring { ttl_ms: 10_000 },
            GameEvent::PlayerDeath { .. } => ReliabilityMode::UnreliableExpiring { ttl_ms: 5_000 },
            GameEvent::ItemPickup { .. } => ReliabilityMode::UnreliableExpiring { ttl_ms: 5_000 },
            GameEvent::ItemDrop { .. } => ReliabilityMode::UnreliableExpiring { ttl_ms: 5_000 },
            GameEvent::DamageDealt { .. } => ReliabilityMode::Unreliable,
            GameEvent::ProjectileFired { .. } => ReliabilityMode::Unreliable,
            GameEvent::ProjectileHit { .. } => ReliabilityMode::Unreliable,
            GameEvent::VoiceData { .. } => ReliabilityMode::Unreliable,
        }
    }

    /// Voice data, damage and projectile launches are transient.
    pub fn is_transient(&self) -> (r: bool)
        ensures
            r == (*self is VoiceData || *self is DamageDealt || *self is ProjectileFired),
    {
        match self {
            GameEvent::VoiceData { .. } | GameEvent::DamageDealt { .. }
            | GameEvent::ProjectileFired { .. } => true,
            _ => false,
        }
    }
}

/// An event waiting in the queue for delivery or acknowledgement.
#[derive(Debug, Clone)]
pub struct PendingEvent {
    pub tick: u32,
    pub timestamp_ms: u64,
    pub event: GameEvent,
    pub sequence: u32,
    pub acked: bool,
}

/// An expiring event expires once more than its time to live has passed
/// since its timestamp; a plain unreliable event is always expired; a
/// reliable one never is.
pub open spec fn expired(e: PendingEvent, now_ms: u64) -> bool {
    match reliability_of(e.event) {
        ReliabilityMode::UnreliableExpiring { ttl_ms } => now_ms >= e.timestamp_ms && now_ms
            - e.timestamp_ms > ttl_ms,
        ReliabilityMode::Unreliable => true,
        ReliabilityMode::Reliable => false,
    }
}

impl PendingEvent {
    pub fn is_expired(&self, current_time_ms: u64) -> (r: bool)
        ensures
            r == expired(*self, current_time_ms),
    {
        match self.event.reliability() {
            ReliabilityMode::UnreliableExpiring { ttl_ms } => current_time_ms.saturating_sub(
                self.timestamp_ms,
            ) > ttl_ms,
            ReliabilityMode::Unreliable => true,
            ReliabilityMode::Reliable => false,
        }
    }
}

/// Reliable events never expire, plain unreliable ones always count as
/// expired, and an expiring one lives exactly its time to live.
pub proof fn lemma_expiry_by_reliability(e: PendingEvent, now_ms: u64)
    ensures
        reliability_of(e.event) is Reliable ==> !expired(e, now_ms),
        reliability_of(e.event) is Unreliable ==> expired(e, now_ms),
        reliability_of(e.event) matches ReliabilityMode::UnreliableExpiring { ttl_ms }
            ==> (expired(e, now_ms) <==> now_ms >= e.timestamp_ms && now_ms - e.timestamp_ms
            > ttl_ms),
{
}

/// After a cleanup no acknowledged or expired event is left, and every
/// unacknowledged reliable event is still there.
pub proof fn lemma_cleanup_keeps_live_events(events: Seq<PendingEvent>, now_ms: u64)
    ensures
        ({
            let kept = events.filter(|p: PendingEvent| !p.acked && !expired(p, now_ms));
            &&& forall|j: int| 0 <= j < kept.len() ==> !(#[trigger] kept[j]).acked && !expired(kept[j], now_ms)
            &&& forall|j: int|
                0 <= j < events.len() && !(#[trigger] events[j]).acked && reliability_of(
                    events[j].event,
                ) is Reliable ==> kept.contains(events[j])
        }),
{
    let keep = |p: PendingEvent| !p.acked && !expired(p, now_ms);
    let kept = events.filter(keep);
    assert forall|j: int| 0 <= j < kept.len() implies !(#[trigger] kept[j]).acked && !expired(kept[j], now_ms) by {
        events.lemma_filter_pred(keep, j);
    }
    assert forall|j: int|
        0 <= j < events.len() && !(#[trigger] events[j]).acked && reliability_of(events[j].event) is Reliable
        implies kept.contains(events[j]) by {
        events.lemma_filter_contains(keep, j);
    }
}

/// Events that change the game's state or talk to players are delivered
/// reliably: chat, game state changes, round starts and ends, score updates
/// and respawns never expire while unacknowledged, so a cleanup at any time
/// keeps them.
pub proof fn lemma_state_events_survive_cleanup(e: PendingEvent, now_ms: u64)
    requires
        e.event is ChatMessage || e.event is GameStateChange || e.event is RoundStart
            || e.event is RoundEnd || e.event is ScoreUpdate || e.event is PlayerRespawn,
    ensures
        reliability_of(e.event) == ReliabilityMode::Reliable,
        !expired(e, now_ms),
        !e.acked ==> (!e.acked && !expired(e, now_ms)),
{
}

/// Kills, deaths and item events expire after their time to live, and
/// damage, projectile and voice events are never held for resending.
pub proof fn lemma_transient_events_expire(e: PendingEvent, now_ms: u64)
    ensures
        e.event is PlayerKill ==> reliability_of(e.event) == (ReliabilityMode::UnreliableExpiring {
            ttl_ms: 10_000,
        }),
        e.event is PlayerDeath || e.event is ItemPickup || e.event is ItemDrop ==> reliability_of(
            e.event,
        ) == (ReliabilityMode::UnreliableExpiring { ttl_ms: 5_000 }),
        e.event is DamageDealt || e.event is ProjectileFired || e.event is ProjectileHit
            || e.event is VoiceData ==> expired(e, now_ms),
{
}

/// `a` is at or before `b` on the wrapping `u32` sequence circle.
pub open spec fn seq_lte(a: u32, b: u32) -> bool {
    crate::protocol::wrap_diff(b, a) < 2147483647u32
}

fn sequence_lte(a: u32, b: u32) -> (r: bool)
    ensures
        r == seq_lte(a, b),
{
    let diff = b.wrapping_sub(a);
    diff < u32::MAX / 2
}

/// Position of the first element of `s` that satisfies `pred`.
pub open spec fn first_index<T>(s: Seq<T>, pred: spec_fn(T) -> bool) -> Option<int>
    decreases s.len(),
{
    if s.len() == 0 {
        None
    } else {
        match first_index(s.drop_last(), pred) {
            Some(i) => Some(i),
            None => if pred(s.last()) {
                Some(s.len() - 1)
            } else {
                None
            },
        }
    }
}

pub proof fn lemma_first_index<T>(s: Seq<T>, pred: spec_fn(T) -> bool)
    ensures
        match first_index(s, pred) {
            Some(i) => 0 <= i < s.len() && pred(s[i]) && forall|j: int|
                0 <= j < i ==> !pred(#[trigger] s[j]),
            None => forall|j: int| 0 <= j < s.len() ==> !pred(#[trigger] s[j]),
        },
    decreases s.len(),
{
    if s.len() > 0 {
        let p = s.drop_last();
        lemma_first_index(p, pred);
        assert(forall|j: int| 0 <= j < p.len() ==> p[j] == s[j]);
    }
}

/// `e` marked as acknowledged.
pub open spec fn acked_event(e: PendingEvent) -> PendingEvent {
    PendingEvent { acked: true, ..e }
}

/// Queue of outgoing game events with sequence numbers and acknowledgements.
pub struct EventQueue {
    pending: VecDeque<PendingEvent>,
    next_sequence: u32,
    max_pending: usize,
}

impl EventQueue {
    /// The queued events, oldest first.
    pub closed spec fn events(&self) -> Seq<PendingEvent> {
        self.pending@
    }

    pub closed spec fn next_seq(&self) -> u32 {
        self.next_sequence
    }

    pub closed spec fn capacity(&self) -> nat {
        self.max_pending as nat
    }

    pub fn new(max_pending: usize) -> (q: Self)
        ensures
            q.events() == Seq::<PendingEvent>::empty(),
            q.next_seq() == 0,
            q.capacity() == max_pending,
    {
        EventQueue { pending: VecDeque::with_capacity(max_pending), next_sequence: 0, max_pending }
    }

    /// Queues `event` under the next sequence number and returns that number.
    /// When the queue is at capacity, the oldest non-reliable event is dropped
    /// first (if there is one).
    pub fn push(&mut self, tick: u32, timestamp_ms: u64, event: GameEvent) -> (sequence: u32)
        ensures
            sequence == old(self).next_seq(),
            final(self).next_seq() == crate::protocol::next_u32(old(self).next_seq()),
            final(self).capacity() == old(self).capacity(),
            ({
                let unreliable = |p: PendingEvent| !(reliability_of(p.event) is Reliable);
                let kept = if old(self).events().len() >= old(self).capacity() {
                    match first_index(old(self).events(), unreliable) {
                        Some(i) => old(self).events().remove(i),
                        None => old(self).events(),
                    }
                } else {
                    old(self).events()
                };
                final(self).events() == kept.push(
                    PendingEvent { tick, timestamp_ms, event, sequence, acked: false },
                )
            }),
    {
        let sequence = self.next_sequence;
        self.next_sequence = self.next_sequence.wrapping_add(1);
        if self.pending.len() >= self.max_pending {
            self.evict_oldest_unreliable();
        }
        self.pending.push_back(PendingEvent { tick, timestamp_ms, event, sequence, acked: false });
        sequence
    }

    /// Marks the first queued event with `sequence` as acknowledged.
    pub fn ack(&mut self, sequence: u32)
        ensures
            final(self).next_seq() == old(self).next_seq(),
            final(self).capacity() == old(self).capacity(),
            final(self).events() == match first_index(
                old(self).events(),
                |p: PendingEvent| p.sequence == sequence,
            ) {
                Some(i) => old(self).events().update(i, acked_event(old(self).events()[i])),
                None => old(self).events(),
            },
    {
        let ghost pred = |p: PendingEvent| p.sequence == sequence;
        proof {
            lemma_first_index(self.pending@, pred);
        }
        let mut i: usize = 0;
        while i < self.pending.len()
            invariant
                i <= self.pending@.len(),
                self.pending == old(self).pending,
                self.next_sequence == old(self).next_sequence,
                self.max_pending == old(self).max_pending,
                pred == (|p: PendingEvent| p.sequence == sequence),
                forall|j: int| 0 <= j < i ==> !pred(#[trigger] self.pending@[j]),
            decreases self.pending@.len() - i,
        {
            if self.pending[i].sequence == sequence {
                proof {
                    lemma_first_index(self.pending@, pred);
                }
                let mut e = self.pending.remove(i).unwrap();
                e.acked = true;
                self.pending.insert(i, e);
                assert(self.pending@ =~= old(self).pending@.update(
                    i as int,
                    acked_event(old(self).pending@[i as int]),
                ));
                return;
            }
            i += 1;
        }
        proof {
            lemma_first_index(self.pending@, pred);
        }
    }

    /// Marks every queued event whose sequence is at or before `sequence` as acknowledged.
    pub fn ack_up_to(&mut self, sequence: u32)
        ensures
            final(self).next_seq() == old(self).next_seq(),
            final(self).capacity() == old(self).capacity(),
            final(self).events() == old(self).events().map_values(
                |p: PendingEvent|
                    if seq_lte(p.sequence, sequence) {
                        acked_event(p)
                    } else {
                        p
                    },
            ),
    {
        let ghost orig = self.pending@;
        let n = self.pending.len();
        let mut i: usize = 0;
        while i < n
            invariant
                n == orig.len(),
                i <= n,
                self.pending@.len() == n,
                self.next_sequence == old(self).next_sequence,
                self.max_pending == old(self).max_pending,
                forall|j: int|
                    0 <= j < i ==> #[trigger] self.pending@[j] == (if seq_lte(
                        orig[j].sequence,
                        sequence,
                    ) {
                        acked_event(orig[j])
                    } else {
                        orig[j]
                    }),
                forall|j: int| i <= j < n ==> #[trigger] self.pending@[j] == orig[j],
            decreases n - i,
        {
            if sequence_lte(self.pending[i].sequence, sequence) {
                let ghost before = self.pending@;
                let mut e = self.pending.remove(i).unwrap();
                e.acked = true;
                self.pending.insert(i, e);
                assert(self.pending@ =~= before.update(i as int, acked_event(before[i as int])));
            }
            i += 1;
        }
        assert(self.pending@ =~= orig.map_values(
            |p: PendingEvent|
                if seq_lte(p.sequence, sequence) {
                    acked_event(p)
                } else {
                    p
                },
        ));
    }

    /// Drops every acknowledged event and every expired one.
    pub fn cleanup(&mut self, current_time_ms: u64)
        ensures
            final(self).next_seq() == old(self).next_seq(),
            final(self).capacity() == old(self).capacity(),
            final(self).events() == old(self).events().filter(
                |p: PendingEvent| !p.acked && !expired(p, current_time_ms),
            ),
    {
        let ghost orig = self.pending@;
        let ghost keep = |p: PendingEvent| !p.acked && !expired(p, current_time_ms);
        let mut kept: VecDeque<PendingEvent> = VecDeque::new();
        let n = self.pending.len();
        let mut i: usize = 0;
        while i < n
            invariant
                n == orig.len(),
                i <= n,
                keep == (|p: PendingEvent| !p.acked && !expired(p, current_time_ms)),
                self.pending@ == orig.skip(i as int),
                kept@ == orig.take(i as int).filter(keep),
                self.next_sequence == old(self).next_sequence,
                self.max_pending == old(self).max_pending,
            decreases n - i,
        {
            proof {
                lemma_filter_take_step(orig, keep, i as int);
                assert(orig.skip(i as int)[0] == orig[i as int]);
                assert(orig.skip(i as int).subrange(1, orig.skip(i as int).len() as int) =~= orig.skip(
                    i + 1,
                ));
            }
            let e = self.pending.pop_front().unwrap();
            if !e.acked && !e.is_expired(current_time_ms) {
                kept.push_back(e);
            }
            i += 1;
        }
        assert(orig.take(n as int) =~= orig);
        self.pending = kept;
    }

    /// The events not yet acknowledged, oldest first.
    pub fn pending_for_send(&self) -> (r: Vec<&PendingEvent>)
        ensures
            r@.map_values(|p: &PendingEvent| *p) == self.events().filter(
                |p: PendingEvent| !p.acked,
            ),
    {
        let ghost keep = |p: PendingEvent| !p.acked;
        let mut r: Vec<&PendingEvent> = Vec::new();
        let mut i: usize = 0;
        while i < self.pending.len()
            invariant
                i <= self.pending@.len(),
                keep == (|p: PendingEvent| !p.acked),
                r@.map_values(|p: &PendingEvent| *p) == self.pending@.take(i as int).filter(keep),
            decreases self.pending@.len() - i,
        {
            proof {
                lemma_filter_take_step(self.pending@, keep, i as int);
            }
            let e = &self.pending[i];
            if !e.acked {
                let ghost before = r@;
                r.push(e);
                assert(r@.map_values(|p: &PendingEvent| *p) =~= before.map_values(
                    |p: &PendingEvent| *p,
                ).push(*e));
            }
            i += 1;
        }
        assert(self.pending@.take(i as int) =~= self.pending@);
        r
    }

    /// The reliable events not yet acknowledged, oldest first.
    pub fn reliable_pending(&self) -> (r: Vec<&PendingEvent>)
        ensures
            r@.map_values(|p: &PendingEvent| *p) == self.events().filter(
                |p: PendingEvent| !p.acked && reliability_of(p.event) is Reliable,
            ),
    {
        let ghost keep = |p: PendingEvent| !p.acked && reliability_of(p.event) is Reliable;
        let mut r: Vec<&PendingEvent> = Vec::new();
        let mut i: usize = 0;
        while i < self.pending.len()
            invariant
                i <= self.pending@.len(),
                keep == (|p: PendingEvent| !p.acked && reliability_of(p.event) is Reliable),
                r@.map_values(|p: &PendingEvent| *p) == self.pending@.take(i as int).filter(keep),
            decreases self.pending@.len() - i,
        {
            proof {
                lemma_filter_take_step(self.pending@, keep, i as int);
            }
            let e = &self.pending[i];
            if !e.acked && e.event.reliability().is_reliable() {
                let ghost before = r@;
                r.push(e);
                assert(r@.map_values(|p: &PendingEvent| *p) =~= before.map_values(
                    |p: &PendingEvent| *p,
                ).push(*e));
            }
            i += 1;
        }
        assert(self.pending@.take(i as int) =~= self.pending@);
        r
    }

    /// Removes the events of `tick` from the queue and returns them in queue order.
    pub fn drain_events_for_tick(&mut self, tick: u32) -> (r: Vec<GameEvent>)
        ensures
            final(self).next_seq() == old(self).next_seq(),
            final(self).capacity() == old(self).capacity(),
            final(self).events() == old(self).events().filter(|p: PendingEvent| p.tick != tick),
            r@ == old(self).events().filter(|p: PendingEvent| p.tick == tick).map_values(
                |p: PendingEvent| p.event,
            ),
    {
        let ghost orig = self.pending@;
        let ghost keep = |p: PendingEvent| p.tick != tick;
        let ghost take = |p: PendingEvent| p.tick == tick;
        let ghost ev = |p: PendingEvent| p.event;
        let mut result: Vec<GameEvent> = Vec::new();
        let mut kept: VecDeque<PendingEvent> = VecDeque::new();
        let n = self.pending.len();
        let mut i: usize = 0;
        while i < n
            invariant
                n == orig.len(),
                i <= n,
                keep == (|p: PendingEvent| p.tick != tick),
                take == (|p: PendingEvent| p.tick == tick),
                ev == (|p: PendingEvent| p.event),
                self.pending@ == orig.skip(i as int),
                kept@ == orig.take(i as int).filter(keep),
                result@ == orig.take(i as int).filter(take).map_values(ev),
                self.next_sequence == old(self).next_sequence,
                self.max_pending == old(self).max_pending,
            decreases n - i,
        {
            proof {
                lemma_filter_take_step(orig, keep, i as int);
                lemma_filter_take_step(orig, take, i as int);
                assert(orig.skip(i as int)[0] == orig[i as int]);
                assert(orig.skip(i as int).subrange(1, orig.skip(i as int).len() as int) =~= orig.skip(
                    i + 1,
                ));
            }
            let e = self.pending.pop_front().unwrap();
            if e.tick == tick {
                let ghost before = result@;
                result.push(e.event);
                assert(result@ =~= orig.take(i + 1).filter(take).map_values(ev));
            } else {
                kept.push_back(e);
                assert(result@ =~= orig.take(i + 1).filter(take).map_values(ev));
            }
            i += 1;
        }
        assert(orig.take(n as int) =~= orig);
        self.pending = kept;
        result
    }

    pub fn len(&self) -> (n: usize)
        ensures
            n == self.events().len(),
    {
        self.pending.len()
    }

    pub fn is_empty(&self) -> (r: bool)
        ensures
            r == (self.events().len() == 0),
    {
        self.pending.len() == 0
    }

    pub fn clear(&mut self)
        ensures
            final(self).events() == Seq::<PendingEvent>::empty(),
            final(self).next_seq() == old(self).next_seq(),
            final(self).capacity() == old(self).capacity(),
    {
        self.pending.clear();
    }

    /// Drops the oldest event that is not reliable, if any.
    fn evict_oldest_unreliable(&mut self)
        ensures
            final(self).next_seq() == old(self).next_seq(),
            final(self).capacity() == old(self).capacity(),
            final(self).events() == match first_index(
                old(self).events(),
                |p: PendingEvent| !(reliability_of(p.event) is Reliable),
            ) {
                Some(i) => old(self).events().remove(i),
                None => old(self).events(),
            },
    {
        let ghost pred = |p: PendingEvent| !(reliability_of(p.event) is Reliable);
        let mut i: usize = 0;
        while i < self.pending.len()
            invariant
                i <= self.pending@.len(),
                self.pending == old(self).pending,
                self.next_sequence == old(self).next_sequence,
                self.max_pending == old(self).max_pending,
                pred == (|p: PendingEvent| !(reliability_of(p.event) is Reliable)),
                forall|j: int| 0 <= j < i ==> !pred(#[trigger] self.pending@[j]),
            decreases self.pending@.len() - i,
        {
            if !self.pending[i].event.reliability().is_reliable() {
                proof {
                    lemma_first_index(self.pending@, pred);
                }
                self.pending.remove(i);
                return;
            }
            i += 1;
        }
        proof {
            lemma_first_index(self.pending@, pred);
        }
    }
}

} // verus!
