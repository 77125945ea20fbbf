use vstd::prelude::*;

verus! {

/// Tick marker of an empty history slot.
pub const EMPTY_TICK: u32 = 0xffff_ffff;

/// Ring of per-tick simulation snapshots, slot `tick % capacity`, for rollback.
pub struct PhysicsHistory<S> {
    snapshots: Vec<Option<S>>,
    ticks: Vec<u32>,
    capacity: usize,
}

/// The slot of `tick` in a ring of `capacity` slots.
pub open spec fn slot_of(tick: u32, capacity: nat) -> int {
    (tick as int) % (capacity as int)
}

/// What a ring with these slots holds for `tick`: the slot's snapshot when
/// the slot still records that tick.
pub open spec fn lookup<S>(ticks: Seq<u32>, snaps: Seq<Option<S>>, capacity: nat, tick: u32) -> Option<S> {
    let i = slot_of(tick, capacity);
    if ticks[i] == tick {
        snaps[i]
    } else {
        None
    }
}

/// A read right after a write: storing `snapshot` for `tick` makes `tick`
/// read back as `snapshot`, and leaves every tick of another slot as it was.
pub proof fn lemma_lookup_after_store<S>(
    ticks: Seq<u32>,
    snaps: Seq<Option<S>>,
    capacity: nat,
    tick: u32,
    snapshot: S,
    other: u32,
)
    requires
        capacity > 0,
        ticks.len() == capacity,
        snaps.len() == capacity,
    ensures
        ({
            let i = slot_of(tick, capacity);
            let t2 = ticks.update(i, tick);
            let s2 = snaps.update(i, Some(snapshot));
            &&& lookup(t2, s2, capacity, tick) == Some(snapshot)
            &&& slot_of(other, capacity) != i ==> lookup(t2, s2, capacity, other) == lookup(
                ticks,
                snaps,
                capacity,
                other,
            )
        }),
{
}

/// Index of the snapshot `latest_before(tick)` picks among the first `n`
/// slots: the one with the greatest recorded tick below `tick` (the first
/// such slot on ties), among slots that hold a snapshot.
pub open spec fn best_before<S>(ticks: Seq<u32>, snaps: Seq<Option<S>>, tick: u32, n: nat) -> Option<
    int,
>
    decreases n,
{
    if n == 0 {
        None
    } else {
        let i = n - 1;
        let prev = best_before(ticks, snaps, tick, (n - 1) as nat);
        if ticks[i] < tick && snaps[i] is Some && (prev is None || ticks[i] > ticks[prev->0]) {
            Some(i)
        } else {
            prev
        }
    }
}

proof fn lemma_best_before<S>(ticks: Seq<u32>, snaps: Seq<Option<S>>, tick: u32, n: nat)
    requires
        n <= ticks.len(),
        n <= snaps.len(),
    ensures
        best_before(ticks, snaps, tick, n) matches Some(b) ==> 0 <= b < n && ticks[b] < tick
            && snaps[b] is Some,
        forall|j: int|
            0 <= j < n && ticks[j] < tick && snaps[j] is Some ==> (best_before(
                ticks,
                snaps,
                tick,
                n,
            ) matches Some(b) && ticks[j] <= ticks[b]),
    decreases n,
{
    if n > 0 {
        lemma_best_before(ticks, snaps, tick, (n - 1) as nat);
    }
}

impl<S> PhysicsHistory<S> {
    /// Recorded tick of each slot.
    pub closed spec fn ticks(&self) -> Seq<u32> {
        self.ticks@
    }

    /// Snapshot of each slot.
    pub closed spec fn snapshots(&self) -> Seq<Option<S>> {
        self.snapshots@
    }

    pub closed spec fn capacity(&self) -> nat {
        self.capacity as nat
    }

    pub closed spec fn wf(&self) -> bool {
        &&& self.snapshots@.len() == self.capacity
        &&& self.ticks@.len() == self.capacity
    }

    /// A well-formed history has one tick and one snapshot slot per unit of
    /// capacity.
    pub proof fn lemma_slot_counts(&self)
        requires
            self.wf(),
        ensures
            self.ticks().len() == self.capacity(),
            self.snapshots().len() == self.capacity(),
    {
    }

    /// `capacity` empty slots.
    pub fn new(capacity: usize) -> (h: Self)
        ensures
            h.wf(),
            h.capacity() == capacity,
            h.ticks().len() == h.capacity(),
            h.snapshots().len() == h.capacity(),
            forall|i: int| 0 <= i < capacity ==> h.ticks()[i] == EMPTY_TICK,
            forall|i: int| 0 <= i < capacity ==> h.snapshots()[i] is None,
    {
        let mut snapshots: Vec<Option<S>> = Vec::with_capacity(capacity);
        let mut ticks: Vec<u32> = Vec::with_capacity(capacity);
        let mut i: usize = 0;
        while i < capacity
            invariant
                i <= capacity,
                snapshots@.len() == i,
                ticks@.len() == i,
                forall|j: int| 0 <= j < i ==> ticks@[j] == EMPTY_TICK,
                forall|j: int| 0 <= j < i ==> snapshots@[j] is None,
            decreases capacity - i,
        {
            snapshots.push(None);
            ticks.push(EMPTY_TICK);
            i += 1;
        }
        PhysicsHistory { snapshots, ticks, capacity }
    }

    /// Stores `snapshot` as the state of `tick`, replacing whatever was in its slot.
    pub fn push(&mut self, tick: u32, snapshot: S)
        requires
            old(self).wf(),
            old(self).capacity() > 0,
        ensures
            final(self).wf(),
            final(self).capacity() == old(self).capacity(),
            final(self).ticks().len() == final(self).capacity(),
            final(self).snapshots().len() == final(self).capacity(),
            final(self).ticks() == old(self).ticks().update(
                slot_of(tick, old(self).capacity()),
                tick,
            ),
            final(self).snapshots() == old(self).snapshots().update(
                slot_of(tick, old(self).capacity()),
                Some(snapshot),
            ),
    {
        let index = (tick as usize) % self.capacity;
        self.snapshots[index] = Some(snapshot);
        self.ticks[index] = tick;
    }

    /// The snapshot of `tick`, if its slot still holds that tick.
    pub fn get(&self, tick: u32) -> (r: Option<&S>)
        requires
            self.wf(),
            self.capacity() > 0,
        ensures
            match lookup(self.ticks(), self.snapshots(), self.capacity(), tick) {
                Some(s) => r == Some(&s),
                None => r is None,
            },
    {
        let index = (tick as usize) % self.capacity;
        if self.ticks[index] == tick {
            self.snapshots[index].as_ref()
        } else {
            None
        }
    }

    /// Empties every slot.
    pub fn clear(&mut self)
        requires
            old(self).wf(),
        ensures
            final(self).wf(),
            final(self).capacity() == old(self).capacity(),
            final(self).ticks().len() == final(self).capacity(),
            final(self).snapshots().len() == final(self).capacity(),
            forall|i: int| 0 <= i < final(self).capacity() ==> final(self).ticks()[i] == EMPTY_TICK,
            forall|i: int| 0 <= i < final(self).capacity() ==> final(self).snapshots()[i] is None,
    {
        let n = self.capacity;
        let mut i: usize = 0;
        while i < n
            invariant
                n == self.capacity,
                self.capacity == old(self).capacity,
                self.snapshots@.len() == n,
                self.ticks@.len() == n,
                i <= n,
                forall|j: int| 0 <= j < i ==> self.ticks@[j] == EMPTY_TICK,
                forall|j: int| 0 <= j < i ==> self.snapshots@[j] is None,
            decreases n - i,
        {
            self.snapshots[i] = None;
            self.ticks[i] = EMPTY_TICK;
            i += 1;
        }
    }

    /// The stored snapshot with the greatest tick below `tick`, with its tick.
    pub fn latest_before(&self, tick: u32) -> (r: Option<(u32, &S)>)
        requires
            self.wf(),
        ensures
            r == (match best_before(self.ticks(), self.snapshots(), tick, self.capacity()) {
                Some(b) => Some((self.ticks()[b], &self.snapshots()[b]->0)),
                None => None,
            }),
            r matches Some((t, _)) ==> t < tick,
            r matches Some((t, snap)) ==> exists|j: int|
                0 <= j < self.capacity() && #[trigger] self.ticks()[j] == t && self.snapshots()[j]
                    == Some(*snap),
            forall|j: int|
                0 <= j < self.capacity() && self.ticks()[j] < tick && self.snapshots()[j] is Some
                    ==> (r matches Some((t, _)) && self.ticks()[j] <= t),
    {
        proof {
            lemma_best_before(self.ticks@, self.snapshots@, tick, self.capacity as nat);
        }
        let mut best: Option<(u32, &S)> = None;
        let mut i: usize = 0;
        while i < self.capacity
            invariant
                self.wf(),
                i <= self.capacity,
                best == (match best_before(self.ticks@, self.snapshots@, tick, i as nat) {
                    Some(b) => Some((self.ticks@[b], &self.snapshots@[b]->0)),
                    None => None,
                }),
            decreases self.capacity - i,
        {
            proof {
                lemma_best_before(self.ticks@, self.snapshots@, tick, i as nat);
            }
            if self.ticks[i] < tick {
                if let Some(snap) = &self.snapshots[i] {
                    match best {
                        None => best = Some((self.ticks[i], snap)),
                        Some((best_tick, _)) => {
                            if self.ticks[i] > best_tick {
                                best = Some((self.ticks[i], snap));
                            }
                        },
                    }
                }
            }
            i += 1;
        }
        proof {
            lemma_best_before(self.ticks@, self.snapshots@, tick, self.capacity as nat);
            if let Some(b) = best_before(self.ticks@, self.snapshots@, tick, self.capacity as nat) {
                assert(self.ticks()[b] == self.ticks@[b]);
            }
        }
        best
    }
}

// ---------------------------------------------------------------------------
// Lag compensation
// ---------------------------------------------------------------------------

/// A pose of an entity recorded at a tick, for rewinding hit detection.
#[derive(Debug, Clone, Copy)]
pub struct LagRecord<P> {
    pub tick: u32,
    pub server_time_ms: u64,
    pub pose: P,
}

/// Per-entity ring buffer of pose history for server-side lag compensation.
/// Its capacity is a power of two; a tick's slot is the tick modulo the
/// capacity.
#[derive(Debug)]
pub struct LagCompensationHistory<P> {
    records: Vec<Option<LagRecord<P>>>,
    capacity: usize,
    latest_tick: u32,
}

/// Smallest power of two that is at least `n` (one for zero).
pub open spec fn next_pow2(n: nat) -> nat
    decreases n,
{
    if n <= 1 {
        1
    } else {
        2 * next_pow2(((n + 1) / 2) as nat)
    }
}

/// `p` is a power of two.
pub open spec fn is_pow2(p: nat) -> bool
    decreases p,
{
    if p == 1 {
        true
    } else if p >= 2 && p % 2 == 0 {
        is_pow2(p / 2)
    } else {
        false
    }
}

proof fn lemma_next_pow2(n: nat)
    ensures
        next_pow2(n) >= n,
        next_pow2(n) >= 1,
        is_pow2(next_pow2(n)),
        forall|p: nat| is_pow2(p) && p >= n ==> p >= next_pow2(n),
    decreases n,
{
    if n > 1 {
        let h = ((n + 1) / 2) as nat;
        lemma_next_pow2(h);
        assert(is_pow2(2 * next_pow2(h))) by {
            assert((2 * next_pow2(h)) / 2 == next_pow2(h));
        }
        assert forall|p: nat| is_pow2(p) && p >= n implies p >= next_pow2(n) by {
            if p == 1 {
            } else {
                assert(p % 2 == 0);
                assert(is_pow2(p / 2));
                assert(p / 2 >= h);
            }
        }
    }
}

/// Index of the record `find_bracketing` picks as "before" among the first
/// `n` slots: latest server time at or before `target` (first on ties).
pub open spec fn bracket_before<P>(recs: Seq<Option<LagRecord<P>>>, target: u64, n: nat) -> Option<
    int,
>
    decreases n,
{
    if n == 0 {
        None
    } else {
        let i = n - 1;
        let prev = bracket_before(recs, target, (n - 1) as nat);
        if recs[i] is Some && recs[i]->0.server_time_ms <= target && (prev is None
            || recs[i]->0.server_time_ms > recs[prev->0]->0.server_time_ms) {
            Some(i)
        } else {
            prev
        }
    }
}

/// Index of the record `find_bracketing` picks as "after" among the first `n`
/// slots: earliest server time after `target` (first on ties).
pub open spec fn bracket_after<P>(recs: Seq<Option<LagRecord<P>>>, target: u64, n: nat) -> Option<
    int,
>
    decreases n,
{
    if n == 0 {
        None
    } else {
        let i = n - 1;
        let prev = bracket_after(recs, target, (n - 1) as nat);
        if recs[i] is Some && recs[i]->0.server_time_ms > target && (prev is None
            || recs[i]->0.server_time_ms < recs[prev->0]->0.server_time_ms) {
            Some(i)
        } else {
            prev
        }
    }
}

proof fn lemma_brackets<P>(recs: Seq<Option<LagRecord<P>>>, target: u64, n: nat)
    requires
        n <= recs.len(),
    ensures
        bracket_before(recs, target, n) matches Some(b) ==> 0 <= b < n && recs[b] is Some
            && recs[b]->0.server_time_ms <= target,
        bracket_after(recs, target, n) matches Some(a) ==> 0 <= a < n && recs[a] is Some
            && recs[a]->0.server_time_ms > target,
        forall|j: int|
            0 <= j < n && recs[j] is Some && recs[j]->0.server_time_ms <= target ==> (bracket_before(
                recs,
                target,
                n,
            ) matches Some(b) && recs[j]->0.server_time_ms <= recs[b]->0.server_time_ms),
        forall|j: int|
            0 <= j < n && recs[j] is Some && recs[j]->0.server_time_ms > target ==> (bracket_after(
                recs,
                target,
                n,
            ) matches Some(a) && recs[a]->0.server_time_ms <= recs[j]->0.server_time_ms),
    decreases n,
{
    if n > 0 {
        lemma_brackets(recs, target, (n - 1) as nat);
    }
}

/// The record in slot `i` if it was taken at `tick`.
pub open spec fn record_at<P>(records: Seq<Option<LagRecord<P>>>, i: int, tick: u32) -> Option<
    LagRecord<P>,
> {
    match records[i] {
        Some(rec) => if rec.tick == tick {
            Some(rec)
        } else {
            None
        },
        None => None,
    }
}

impl<P> LagCompensationHistory<P> {
    pub closed spec fn records(&self) -> Seq<Option<LagRecord<P>>> {
        self.records@
    }

    pub closed spec fn capacity(&self) -> nat {
        self.capacity as nat
    }

    /// The tick of the most recent `record` call.
    pub closed spec fn latest(&self) -> u32 {
        self.latest_tick
    }

    /// The slot of `tick`: the tick modulo the capacity.
    pub closed spec fn slot(&self, tick: u32) -> int {
        (tick as int) % (self.capacity as int)
    }

    pub closed spec fn wf(&self) -> bool {
        &&& self.records@.len() == self.capacity
        &&& self.capacity >= 2
    }

    /// A tick's slot is the tick modulo the capacity.
    pub proof fn lemma_slot_is_tick_mod_capacity(&self, tick: u32)
        requires
            self.wf(),
        ensures
            self.records().len() == self.capacity(),
            self.slot(tick) == (tick as int) % (self.capacity() as int),
            0 <= self.slot(tick) < self.capacity(),
    {
    }

    /// History with `min_capacity` rounded up to a power of two, and at least two slots.
    pub fn new(min_capacity: usize) -> (h: Self)
        requires
            min_capacity <= usize::MAX / 2 + 1,
        ensures
            h.wf(),
            h.records().len() == h.capacity(),
            h.capacity() == (if next_pow2(min_capacity as nat) >= 2 {
                next_pow2(min_capacity as nat)
            } else {
                2
            }),
            forall|i: int| 0 <= i < h.capacity() ==> h.records()[i] is None,
            h.latest() == 0,
    {
        proof {
            lemma_next_pow2(min_capacity as nat);
        }
        let mut p: usize = 1;
        while p < min_capacity
            invariant
                p >= 1,
                is_pow2(p as nat),
                p <= next_pow2(min_capacity as nat),
                min_capacity <= usize::MAX / 2 + 1,
                next_pow2(min_capacity as nat) >= min_capacity,
                is_pow2(next_pow2(min_capacity as nat)),
                forall|q: nat| is_pow2(q) && q >= min_capacity ==> q >= next_pow2(
                    min_capacity as nat,
                ),
            decreases next_pow2(min_capacity as nat) - p,
        {
            proof {
                assert(is_pow2((2 * p) as nat)) by {
                    assert(((2 * p) as nat) / 2 == p as nat);
                }
                lemma_pow2_step(p as nat, next_pow2(min_capacity as nat));
            }
            p = p * 2;
        }
        let capacity = if p >= 2 {
            p
        } else {
            2
        };

        let mut records: Vec<Option<LagRecord<P>>> = Vec::with_capacity(capacity);
        let mut i: usize = 0;
        while i < capacity
            invariant
                i <= capacity,
                records@.len() == i,
                forall|j: int| 0 <= j < i ==> records@[j] is None,
            decreases capacity - i,
        {
            records.push(None);
            i += 1;
        }
        LagCompensationHistory { records, capacity, latest_tick: 0 }
    }

    fn index(&self, tick: u32) -> (i: usize)
        requires
            self.wf(),
        ensures
            i == self.slot(tick),
            i < self.capacity(),
    {
        (tick as usize) % self.capacity
    }

    /// Records `pose` at `tick` and `server_time_ms` in the tick's slot.
    pub fn record(&mut self, tick: u32, server_time_ms: u64, pose: P)
        requires
            old(self).wf(),
        ensures
            final(self).wf(),
            final(self).capacity() == old(self).capacity(),
            final(self).records().len() == final(self).capacity(),
            forall|t: u32| final(self).slot(t) == old(self).slot(t),
            0 <= old(self).slot(tick) < old(self).capacity(),
            final(self).records() == old(self).records().update(
                old(self).slot(tick),
                Some(LagRecord { tick, server_time_ms, pose }),
            ),
            final(self).latest() == tick,
    {
        let idx = self.index(tick);
        self.records[idx] = Some(LagRecord { tick, server_time_ms, pose });
        self.latest_tick = tick;
    }

    /// The latest record at or before `target_time_ms` and the earliest one
    /// after it, when both exist.
    pub fn find_bracketing(&self, target_time_ms: u64) -> (r: Option<
        (&LagRecord<P>, &LagRecord<P>),
    >)
        requires
            self.wf(),
        ensures
            r == (match (
                bracket_before(self.records(), target_time_ms, self.capacity()),
                bracket_after(self.records(), target_time_ms, self.capacity()),
            ) {
                (Some(b), Some(a)) => Some((&self.records()[b]->0, &self.records()[a]->0)),
                _ => None,
            }),
            r matches Some((b, a)) ==> {
                &&& b.server_time_ms <= target_time_ms < a.server_time_ms
                &&& exists|j: int| 0 <= j < self.capacity() && #[trigger] self.records()[j] == Some(*b)
                &&& exists|j: int| 0 <= j < self.capacity() && #[trigger] self.records()[j] == Some(*a)
                &&& forall|j: int|
                    0 <= j < self.capacity() && #[trigger] self.records()[j] is Some
                        && self.records()[j]->0.server_time_ms <= target_time_ms
                        ==> self.records()[j]->0.server_time_ms <= b.server_time_ms
                &&& forall|j: int|
                    0 <= j < self.capacity() && #[trigger] self.records()[j] is Some
                        && self.records()[j]->0.server_time_ms > target_time_ms
                        ==> a.server_time_ms <= self.records()[j]->0.server_time_ms
            },
            r is None ==> (forall|j: int|
                0 <= j < self.capacity() && #[trigger] self.records()[j] is Some
                    ==> self.records()[j]->0.server_time_ms > target_time_ms) || (forall|j: int|
                0 <= j < self.capacity() && #[trigger] self.records()[j] is Some
                    ==> self.records()[j]->0.server_time_ms <= target_time_ms),
    {
        proof {
            lemma_brackets(self.records@, target_time_ms, self.capacity as nat);
        }
        proof {
            lemma_brackets(self.records@, target_time_ms, self.capacity as nat);
        }
        let mut before: Option<&LagRecord<P>> = None;
        let mut after: Option<&LagRecord<P>> = None;
        let mut i: usize = 0;
        while i < self.records.len()
            invariant
                self.wf(),
                i <= self.records@.len(),
                before == (match bracket_before(self.records@, target_time_ms, i as nat) {
                    Some(b) => Some(&self.records@[b]->0),
                    None => None,
                }),
                after == (match bracket_after(self.records@, target_time_ms, i as nat) {
                    Some(a) => Some(&self.records@[a]->0),
                    None => None,
                }),
            decreases self.records@.len() - i,
        {
            proof {
                lemma_brackets(self.records@, target_time_ms, i as nat);
            }
            if let Some(record) = &self.records[i] {
                if record.server_time_ms <= target_time_ms {
                    match before {
                        None => before = Some(record),
                        Some(b) => {
                            if record.server_time_ms > b.server_time_ms {
                                before = Some(record);
                            }
                        },
                    }
                } else {
                    match after {
                        None => after = Some(record),
                        Some(a) => {
                            if record.server_time_ms < a.server_time_ms {
                                after = Some(record);
                            }
                        },
                    }
                }
            }
            i += 1;
        }
        match (before, after) {
            (Some(b), Some(a)) => Some((b, a)),
            _ => None,
        }
    }

    /// The record of exactly `tick`, if its slot still holds it.
    pub fn get(&self, tick: u32) -> (r: Option<&LagRecord<P>>)
        requires
            self.wf(),
        ensures
            match record_at(self.records(), self.slot(tick), tick) {
                Some(rec) => r == Some(&rec),
                None => r is None,
            },
    {
        let idx = self.index(tick);
        match &self.records[idx] {
            Some(rec) => if rec.tick == tick {
                Some(rec)
            } else {
                None
            },
            None => None,
        }
    }

    /// A read right after a write: recording `pose` at `tick` makes `tick`
    /// read back as that record, makes every other tick of the same slot read
    /// as nothing, and leaves every tick of another slot as it was.
    pub proof fn lemma_get_after_record(&self, tick: u32, server_time_ms: u64, pose: P, other: u32)
        requires
            self.wf(),
        ensures
            0 <= self.slot(tick) < self.capacity(),
            ({
                let recs = self.records().update(
                    self.slot(tick),
                    Some(LagRecord { tick, server_time_ms, pose }),
                );
                &&& record_at(recs, self.slot(tick), tick) == Some(
                    LagRecord { tick, server_time_ms, pose },
                )
                &&& self.slot(other) != self.slot(tick) ==> record_at(recs, self.slot(other), other)
                    == record_at(self.records(), self.slot(other), other)
                &&& self.slot(other) == self.slot(tick) && other != tick ==> record_at(
                    recs,
                    self.slot(other),
                    other,
                ) is None
            }),
    {
    }
}

/// Doubling a power of two below the next power of two of `n` stays within it.
proof fn lemma_pow2_step(p: nat, np: nat)
    requires
        is_pow2(p),
        is_pow2(np),
        p < np,
    ensures
        2 * p <= np,
    decreases np,
{
    if p == 1 {
        if np == 1 {
        } else {
            assert(np % 2 == 0);
        }
    } else {
        assert(p % 2 == 0 && np % 2 == 0);
        lemma_pow2_step(p / 2, np / 2);
    }
}

} // verus!
