use vstd::prelude::*;

use crate::connection::PeerAddr;
use crate::protocol::Packet;

verus! {

/// Number of leading entries of `s` released at or before `t`.
pub open spec fn released_by<T>(s: Seq<(u64, T)>, t: u64) -> nat
    decreases s.len(),
{
    if s.len() > 0 && s[0].0 <= t {
        1 + released_by(s.drop_first(), t)
    } else {
        0
    }
}

/// Release times never decrease along `s`.
pub open spec fn release_ordered<T>(s: Seq<(u64, T)>) -> bool {
    forall|i: int, j: int| 0 <= i <= j < s.len() ==> s[i].0 <= s[j].0
}

/// The item of an entry.
pub open spec fn item_of<T>() -> spec_fn((u64, T)) -> T {
    |e: (u64, T)| e.1
}

proof fn lemma_released_by<T>(s: Seq<(u64, T)>, t: u64)
    requires
        release_ordered(s),
    ensures
        released_by(s, t) <= s.len(),
        forall|i: int| 0 <= i < released_by(s, t) ==> (#[trigger] s[i]).0 <= t,
        forall|i: int| released_by(s, t) <= i < s.len() ==> (#[trigger] s[i]).0 > t,
    decreases s.len(),
{
    if s.len() > 0 && s[0].0 <= t {
        lemma_released_by(s.drop_first(), t);
        assert forall|i: int| 0 <= i < released_by(s, t) implies (#[trigger] s[i]).0 <= t by {
            if i > 0 {
                assert(s[i] == s.drop_first()[i - 1]);
            }
        }
        assert forall|i: int| released_by(s, t) <= i < s.len() implies (#[trigger] s[i]).0 > t by {
            assert(s[i] == s.drop_first()[i - 1]);
        }
    }
}

/// `s` with `(release, item)` placed after every entry released no later.
pub open spec fn inserted<T>(s: Seq<(u64, T)>, release: u64, item: T) -> Seq<(u64, T)> {
    let k = released_by(s, release) as int;
    s.take(k).push((release, item)) + s.skip(k)
}

proof fn lemma_insert_keeps_order<T>(s: Seq<(u64, T)>, release: u64, item: T)
    requires
        release_ordered(s),
    ensures
        release_ordered(inserted(s, release, item)),
        inserted(s, release, item).len() == s.len() + 1,
        inserted(s, release, item)[released_by(s, release) as int] == (release, item),
{
    lemma_released_by(s, release);
    let k = released_by(s, release) as int;
    let n = inserted(s, release, item);
    assert forall|i: int, j: int| 0 <= i <= j < n.len() implies n[i].0 <= n[j].0 by {
        if i < k && j > k {
            assert(n[i] == s[i]);
            assert(n[j] == s[j - 1]);
        } else if i < k && j == k {
            assert(n[i] == s[i]);
        } else if i == k && j > k {
            assert(n[j] == s[j - 1]);
        } else if i > k {
            assert(n[i] == s[i - 1]);
            assert(n[j] == s[j - 1]);
        } else if j < k {
            assert(n[i] == s[i]);
            assert(n[j] == s[j]);
        }
    }
}

/// Nothing comes out early and nothing due is held back: an item queued
/// for release at `release` is among those `take_due(now)` hands out exactly
/// when `release <= now`.
pub proof fn lemma_released_when_due<T>(s: Seq<(u64, T)>, release: u64, item: T, now: u64)
    requires
        release_ordered(s),
    ensures
        (released_by(s, release) < released_by(inserted(s, release, item), now)) <==> release <= now,
{
    lemma_insert_keeps_order(s, release, item);
    lemma_released_by(s, release);
    let n = inserted(s, release, item);
    let k = released_by(s, release) as int;
    lemma_released_by(n, now);
    assert(n[k].0 == release);
}

/// Items held back until a release time, handed out in release order (items
/// released at the same time in the order they were queued).
#[derive(Debug)]
pub struct DelayQueue<T> {
    entries: Vec<(u64, T)>,
}

impl<T> DelayQueue<T> {
    /// The queued items with their release times, in release order.
    pub closed spec fn entries(&self) -> Seq<(u64, T)> {
        self.entries@
    }

    pub closed spec fn wf(&self) -> bool {
        release_ordered(self.entries@)
    }

    pub fn new() -> (q: Self)
        ensures
            q.wf(),
            q.entries() == Seq::<(u64, T)>::empty(),
    {
        DelayQueue { entries: Vec::new() }
    }

    pub fn len(&self) -> (n: usize)
        ensures
            n == self.entries().len(),
    {
        self.entries.len()
    }

    pub fn is_empty(&self) -> (r: bool)
        ensures
            r == (self.entries().len() == 0),
    {
        self.entries.len() == 0
    }

    /// Queues `item` for release at `release_us`, after every item released
    /// no later.
    pub fn push(&mut self, release_us: u64, item: T)
        requires
            old(self).wf(),
        ensures
            final(self).wf(),
            final(self).entries() == inserted(old(self).entries(), release_us, item),
    {
        let ghost s = self.entries@;
        proof {
            lemma_released_by(s, release_us);
        }
        let mut k: usize = 0;
        while k < self.entries.len() && self.entries[k].0 <= release_us
            invariant
                self.entries@ == s,
                k <= released_by(s, release_us),
                released_by(s, release_us) <= s.len(),
                forall|i: int| 0 <= i < released_by(s, release_us) ==> (#[trigger] s[i]).0 <= release_us,
                forall|i: int| released_by(s, release_us) <= i < s.len() ==> (#[trigger] s[i]).0 > release_us,
            decreases s.len() - k,
        {
            k += 1;
        }
        self.entries.insert(k, (release_us, item));
        proof {
            assert(self.entries@ =~= s.take(k as int).push((release_us, item)) + s.skip(k as int));
            lemma_insert_keeps_order(s, release_us, item);
        }
    }

    /// Removes and returns, in release order, every item released at or
    /// before `now_us`.
    pub fn take_due(&mut self, now_us: u64) -> (out: Vec<T>)
        requires
            old(self).wf(),
        ensures
            final(self).wf(),
            ({
                let s = old(self).entries();
                let k = released_by(s, now_us) as int;
                &&& out@ == s.take(k).map_values(item_of::<T>())
                &&& final(self).entries() == s.skip(k)
            }),
            forall|i: int| 0 <= i < old(self).entries().len() && (#[trigger] old(self).entries()[i]).0 <= now_us
                ==> i < out@.len(),
            forall|i: int| 0 <= i < final(self).entries().len() ==> (#[trigger] final(self).entries()[i]).0 > now_us,
    {
        let ghost s = self.entries@;
        let ghost k = released_by(s, now_us);
        proof {
            lemma_released_by(s, now_us);
        }
        let mut out: Vec<T> = Vec::new();
        while self.entries.len() > 0 && self.entries[0].0 <= now_us
            invariant
                k == released_by(s, now_us),
                k <= s.len(),
                forall|i: int| 0 <= i < k ==> (#[trigger] s[i]).0 <= now_us,
                forall|i: int| k <= i < s.len() ==> (#[trigger] s[i]).0 > now_us,
                out@.len() <= k,
                out@ == s.take(out@.len() as int).map_values(item_of::<T>()),
                self.entries@ == s.skip(out@.len() as int),
            decreases self.entries@.len(),
        {
            let ghost m = out@.len() as int;
            assert(s.skip(m)[0] == s[m]);
            let (_, item) = self.entries.remove(0);
            assert(self.entries@ =~= s.skip(m + 1));
            out.push(item);
            assert(out@ =~= s.take(m + 1).map_values(item_of::<T>()));
        }
        proof {
            let m = out@.len();
            if m < k {
                assert(self.entries@[0] == s[m as int]);
            }
            let rest = self.entries@;
            assert forall|i: int, j: int| 0 <= i <= j < rest.len() implies rest[i].0 <= rest[j].0 by {
                assert(rest[i] == s[i + m]);
                assert(rest[j] == s[j + m]);
            }
            assert forall|i: int| 0 <= i < rest.len() implies (#[trigger] rest[i]).0 > now_us by {
                assert(rest[i] == s[i + m]);
            }
        }
        out
    }
}

/// Delays packets in both directions, as a network with latency would.
/// How long each packet waits is chosen by the caller.
#[derive(Debug)]
pub struct NetworkSimulator {
    pub inbound: DelayQueue<(Packet, PeerAddr)>,
    pub outbound: DelayQueue<(Packet, PeerAddr)>,
}

impl NetworkSimulator {
    pub open spec fn wf(&self) -> bool {
        self.inbound.wf() && self.outbound.wf()
    }

    pub fn new() -> (sim: Self)
        ensures
            sim.wf(),
            sim.inbound.entries().len() == 0,
            sim.outbound.entries().len() == 0,
    {
        NetworkSimulator { inbound: DelayQueue::new(), outbound: DelayQueue::new() }
    }

    /// Holds an arriving packet from `addr` until `now_us + delay_us`
    /// (saturating at the end of time).
    pub fn enqueue_inbound(&mut self, packet: Packet, addr: PeerAddr, now_us: u64, delay_us: u64)
        requires
            old(self).wf(),
        ensures
            final(self).wf(),
            final(self).outbound == old(self).outbound,
            final(self).inbound.entries() == inserted(
                old(self).inbound.entries(),
                if now_us + delay_us <= u64::MAX {
                    (now_us + delay_us) as u64
                } else {
                    u64::MAX
                },
                (packet, addr),
            ),
    {
        let release = now_us.saturating_add(delay_us);
        self.inbound.push(release, (packet, addr));
    }

    /// Holds a departing packet for `addr` until `now_us + delay_us`
    /// (saturating at the end of time).
    pub fn enqueue_outbound(&mut self, packet: Packet, addr: PeerAddr, now_us: u64, delay_us: u64)
        requires
            old(self).wf(),
        ensures
            final(self).wf(),
            final(self).inbound == old(self).inbound,
            final(self).outbound.entries() == inserted(
                old(self).outbound.entries(),
                if now_us + delay_us <= u64::MAX {
                    (now_us + delay_us) as u64
                } else {
                    u64::MAX
                },
                (packet, addr),
            ),
    {
        let release = now_us.saturating_add(delay_us);
        self.outbound.push(release, (packet, addr));
    }

    /// The arrived packets whose delay is over at `now_us`, in release order.
    pub fn take_inbound(&mut self, now_us: u64) -> (out: Vec<(Packet, PeerAddr)>)
        requires
            old(self).wf(),
        ensures
            final(self).wf(),
            final(self).outbound == old(self).outbound,
            ({
                let s = old(self).inbound.entries();
                let k = released_by(s, now_us) as int;
                &&& out@ == s.take(k).map_values(item_of::<(Packet, PeerAddr)>())
                &&& final(self).inbound.entries() == s.skip(k)
            }),
    {
        self.inbound.take_due(now_us)
    }

    /// The departing packets whose delay is over at `now_us`, in release order.
    pub fn take_outbound(&mut self, now_us: u64) -> (out: Vec<(Packet, PeerAddr)>)
        requires
            old(self).wf(),
        ensures
            final(self).wf(),
            final(self).inbound == old(self).inbound,
            ({
                let s = old(self).outbound.entries();
                let k = released_by(s, now_us) as int;
                &&& out@ == s.take(k).map_values(item_of::<(Packet, PeerAddr)>())
                &&& final(self).outbound.entries() == s.skip(k)
            }),
    {
        self.outbound.take_due(now_us)
    }
}

} // verus!
