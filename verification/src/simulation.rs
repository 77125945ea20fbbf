use std::collections::VecDeque;

use vstd::prelude::*;

use crate::protocol::ClientCommand;

verus! {

/// Most time the accumulator holds, in microseconds (250 ms), so that a long
/// stall cannot demand an unbounded burst of ticks.
pub const MAX_ACCUMULATE_US: u64 = 250_000;

/// Fixed timestep using integer microseconds to avoid floating-point drift.
///
/// The accumulator stores leftover time in microseconds. Each tick consumes
/// exactly `tick_interval_us` microseconds.
pub struct FixedTimestep {
    tick_rate: u32,
    tick_interval_us: u64,
    accumulator_us: u64,
    max_accumulate_us: u64,
}

impl FixedTimestep {
    pub closed spec fn rate(&self) -> u32 {
        self.tick_rate
    }

    pub closed spec fn interval(&self) -> u64 {
        self.tick_interval_us
    }

    /// Unconsumed time in microseconds.
    pub closed spec fn accumulated(&self) -> u64 {
        self.accumulator_us
    }

    pub closed spec fn wf(&self) -> bool {
        &&& self.tick_rate > 0
        &&& self.tick_interval_us == 1_000_000int / (self.tick_rate as int)
        &&& self.max_accumulate_us == MAX_ACCUMULATE_US
        &&& self.accumulator_us <= MAX_ACCUMULATE_US
    }

    pub fn new(tick_rate: u32) -> (t: Self)
        requires
            tick_rate > 0,
        ensures
            t.wf(),
            t.rate() == tick_rate,
            t.interval() == 1_000_000int / (tick_rate as int),
            t.accumulated() == 0,
    {
        let tick_interval_us = 1_000_000 / tick_rate as u64;
        FixedTimestep {
            tick_rate,
            tick_interval_us,
            accumulator_us: 0,
            max_accumulate_us: MAX_ACCUMULATE_US,
        }
    }

    pub fn tick_rate(&self) -> (r: u32)
        ensures
            r == self.rate(),
    {
        self.tick_rate
    }

    /// Tick interval in microseconds.
    pub fn tick_interval_us(&self) -> (r: u64)
        ensures
            r == self.interval(),
    {
        self.tick_interval_us
    }

    /// Time waiting in the accumulator, in microseconds.
    pub fn accumulator_us(&self) -> (r: u64)
        ensures
            r == self.accumulated(),
    {
        self.accumulator_us
    }

    /// Adds `delta_us` microseconds of frame time, capped at 250 ms in total.
    pub fn accumulate_us(&mut self, delta_us: u64)
        requires
            old(self).wf(),
            old(self).accumulated() + delta_us <= u64::MAX,
        ensures
            final(self).wf(),
            final(self).rate() == old(self).rate(),
            final(self).interval() == old(self).interval(),
            final(self).accumulated() == (if old(self).accumulated() + delta_us
                <= MAX_ACCUMULATE_US {
                old(self).accumulated() + delta_us
            } else {
                MAX_ACCUMULATE_US as int
            }),
    {
        let total = self.accumulator_us + delta_us;
        self.accumulator_us = if total < self.max_accumulate_us {
            total
        } else {
            self.max_accumulate_us
        };
    }

    /// Whether a whole tick interval is available.
    pub fn should_tick(&self) -> (r: bool)
        ensures
            r == (self.accumulated() >= self.interval()),
    {
        self.accumulator_us >= self.tick_interval_us
    }

    /// Takes one tick interval from the accumulator if it holds one.
    pub fn consume_tick(&mut self) -> (ticked: bool)
        requires
            old(self).wf(),
        ensures
            final(self).wf(),
            final(self).rate() == old(self).rate(),
            final(self).interval() == old(self).interval(),
            ticked == (old(self).accumulated() >= old(self).interval()),
            ticked ==> final(self).accumulated() == old(self).accumulated() - old(self).interval(),
            !ticked ==> final(self).accumulated() == old(self).accumulated(),
    {
        if self.accumulator_us >= self.tick_interval_us {
            self.accumulator_us -= self.tick_interval_us;
            true
        } else {
            false
        }
    }

    /// Drops all accumulated time.
    pub fn reset(&mut self)
        requires
            old(self).wf(),
        ensures
            final(self).wf(),
            final(self).rate() == old(self).rate(),
            final(self).interval() == old(self).interval(),
            final(self).accumulated() == 0,
    {
        self.accumulator_us = 0;
    }
}

/// How many times in a row `consume_tick` succeeds on an accumulator holding
/// `acc` microseconds, and what it holds afterwards.
pub open spec fn drain_ticks(acc: nat, interval: nat) -> (nat, nat)
    decreases acc,
{
    if interval > 0 && acc >= interval {
        let (n, rest) = drain_ticks((acc - interval) as nat, interval);
        (n + 1, rest)
    } else {
        (0, acc)
    }
}

/// Consuming ticks until none is left runs exactly `acc / interval` ticks and
/// leaves `acc % interval`: integer time never drifts.
pub proof fn lemma_drain_ticks(acc: nat, interval: nat)
    requires
        interval > 0,
    ensures
        drain_ticks(acc, interval) == (acc / interval, acc % interval),
    decreases acc,
{
    if acc >= interval {
        lemma_drain_ticks((acc - interval) as nat, interval);
        assert(acc / interval == (acc - interval) as nat / interval + 1) by (nonlinear_arith)
            requires
                interval > 0,
                acc >= interval,
        ;
        assert(acc % interval == (acc - interval) as nat % interval) by (nonlinear_arith)
            requires
                interval > 0,
                acc >= interval,
        ;
    } else {
        assert(acc / interval == 0 && acc % interval == acc) by (nonlinear_arith)
            requires
                interval > 0,
                acc < interval,
        ;
    }
}

/// However long a stall, one burst of consumed ticks covers at most 250 ms:
/// no more ticks than fit in the capped accumulator.
pub proof fn lemma_burst_is_bounded(acc: nat, interval: nat)
    requires
        interval > 0,
        acc <= MAX_ACCUMULATE_US,
    ensures
        drain_ticks(acc, interval).0 <= MAX_ACCUMULATE_US as nat / interval,
{
    lemma_drain_ticks(acc, interval);
    vstd::arithmetic::div_mod::lemma_div_is_ordered(acc as int, MAX_ACCUMULATE_US as int, interval as int);
}

// ---------------------------------------------------------------------------
// Command buffer
// ---------------------------------------------------------------------------

/// A client command waiting to be simulated for an entity.
#[derive(Debug, Clone, Copy)]
pub struct PendingCommand {
    pub entity_id: u32,
    pub command: ClientCommand,
}

/// Bounded FIFO of received commands, drained tick by tick.
pub struct CommandBuffer {
    commands: VecDeque<PendingCommand>,
    max_size: usize,
}

/// The longest prefix of `q` whose commands are for ticks at or before `tick`.
pub open spec fn due_prefix_len(q: Seq<PendingCommand>, tick: u32) -> nat
    decreases q.len(),
{
    if q.len() > 0 && q[0].command.tick <= tick {
        1 + due_prefix_len(q.drop_first(), tick)
    } else {
        0
    }
}

proof fn lemma_due_prefix_len(q: Seq<PendingCommand>, tick: u32)
    ensures
        due_prefix_len(q, tick) <= q.len(),
        forall|i: int| 0 <= i < due_prefix_len(q, tick) ==> (#[trigger] q[i]).command.tick <= tick,
        due_prefix_len(q, tick) < q.len() ==> q[due_prefix_len(q, tick) as int].command.tick > tick,
    decreases q.len(),
{
    if q.len() > 0 && q[0].command.tick <= tick {
        lemma_due_prefix_len(q.drop_first(), tick);
        assert forall|i: int| 0 <= i < due_prefix_len(q, tick) implies (
        #[trigger] q[i]).command.tick <= tick by {
            if i > 0 {
                assert(q[i] == q.drop_first()[i - 1]);
            }
        }
    }
}

impl CommandBuffer {
    /// The buffered commands, oldest first.
    pub closed spec fn commands(&self) -> Seq<PendingCommand> {
        self.commands@
    }

    pub closed spec fn capacity(&self) -> nat {
        self.max_size as nat
    }

    pub fn new(max_size: usize) -> (b: Self)
        ensures
            b.commands() == Seq::<PendingCommand>::empty(),
            b.capacity() == max_size,
    {
        CommandBuffer { commands: VecDeque::with_capacity(max_size), max_size }
    }

    /// Appends a command, dropping the oldest one when the buffer is full.
    pub fn push(&mut self, entity_id: u32, command: ClientCommand)
        ensures
            final(self).capacity() == old(self).capacity(),
            final(self).commands() == (if old(self).commands().len() >= old(self).capacity()
                && old(self).commands().len() > 0 {
                old(self).commands().drop_first()
            } else {
                old(self).commands()
            }).push(PendingCommand { entity_id, command }),
    {
        if self.commands.len() >= self.max_size {
            self.commands.pop_front();
        }
        self.commands.push_back(PendingCommand { entity_id, command });
    }

    /// Removes and returns the leading commands whose tick is at or before `tick`.
    pub fn drain_for_tick(&mut self, tick: u32) -> (r: Vec<PendingCommand>)
        ensures
            final(self).capacity() == old(self).capacity(),
            r@ == old(self).commands().take(due_prefix_len(old(self).commands(), tick) as int),
            final(self).commands() == old(self).commands().skip(
                due_prefix_len(old(self).commands(), tick) as int,
            ),
    {
        let ghost orig = self.commands@;
        let ghost k = due_prefix_len(orig, tick);
        proof {
            lemma_due_prefix_len(orig, tick);
        }
        let mut result: Vec<PendingCommand> = Vec::new();
        while self.commands.len() > 0 && self.commands[0].command.tick <= tick
            invariant
                k == due_prefix_len(orig, tick),
                k <= orig.len(),
                forall|i: int| 0 <= i < k ==> (#[trigger] orig[i]).command.tick <= tick,
                k < orig.len() ==> orig[k as int].command.tick > tick,
                result@.len() <= k,
                result@ == orig.take(result@.len() as int),
                self.commands@ == orig.skip(result@.len() as int),
                self.max_size == old(self).max_size,
            decreases self.commands@.len(),
        {
            let ghost n: int = result@.len() as int;
            assert(orig.skip(n as int)[0] == orig[n as int]);
            let c = self.commands.pop_front().unwrap();
            assert(self.commands@ =~= orig.skip(n + 1 as int));
            result.push(c);
            assert(result@ =~= orig.take(n + 1 as int));
        }
        proof {
            let n = result@.len();
            if n < k {
                assert(self.commands@.len() > 0);
                assert(self.commands@[0] == orig[n as int]);
            }
        }
        result
    }

    pub fn clear(&mut self)
        ensures
            final(self).capacity() == old(self).capacity(),
            final(self).commands() == Seq::<PendingCommand>::empty(),
    {
        self.commands.clear();
    }

    pub fn len(&self) -> (n: usize)
        ensures
            n == self.commands().len(),
    {
        self.commands.len()
    }

    pub fn is_empty(&self) -> (r: bool)
        ensures
            r == (self.commands().len() == 0),
    {
        self.commands.len() == 0
    }
}

} // verus!
