//! The same pipeline as `pipeline.rs`, with ambient authority: no kernel,
//! no capabilities, no process tables, no handles, no epochs. Channels are
//! plain queues any stage can touch, and regions are plain byte buffers
//! moved by ordinary Rust moves. Logical clocks are optional, so their cost
//! can be measured apart from the cost of capabilities.
//!
//! Everything else is deliberately the kernel pipeline's: topology, the
//! downstream-first round-robin schedule (the supervisor's no-op turn
//! included), the FIFO region pool, the producer draining returns before
//! sending, and the `data` functions doing the work. So the benchmark
//! difference is the price of the kernel's discipline, and results and
//! scheduler statistics must match the kernel pipeline's exactly.
use std::collections::VecDeque;
use vstd::prelude::*;

use crate::clock::{EventClock, Stamp};
use crate::workload::data::{after_stages, batch_bytes, checksum, fill_batch, transform};
use crate::workload::flow::{
    batch_range, flat, hops_left, lemma_flat_len, lemma_flat_pop, lemma_flat_push, lemma_flat_shift,
    lemma_hops_empty, lemma_hops_nonneg, lemma_hops_update,
};
use crate::workload::pipeline::{
    all_batches_done, completed_run, expected_result, BatchResult, PipelineConfig, PipelineError, Stats,
};
use crate::workload::schedule::{
    flow_turn, initial_counts, lens_of, schedule, schedule_stats, turn_budget, FlowCounts,
};

verus! {

#[derive(Debug, Clone)]
pub struct BaselineReport {
    pub results: Vec<BatchResult>,
    pub stats: Stats,
}

#[derive(Clone, Copy, PartialEq, Eq, Structural)]
enum Kind {
    Supervisor,
    Producer,
    Transformer(usize),
    Sink,
}

struct Message {
    batch: u64,
    region: Vec<u8>,
    /// Carried only when clocks are on.
    stamp: Option<Stamp<usize>>,
}

struct Stage {
    kind: Kind,
    clock: Option<EventClock<usize>>,
}

/// The stage at position `s` of the round-robin order, with `n`
/// transformers: supervisor, sink, transformers downstream first, producer.
spec fn kind_at(s: int, n: int) -> Kind {
    if s == 0 {
        Kind::Supervisor
    } else if s == 1 {
        Kind::Sink
    } else if s <= n + 1 {
        Kind::Transformer((n + 1 - s) as usize)
    } else {
        Kind::Producer
    }
}

/// A message's batch.
spec fn batch_fn() -> spec_fn(Message) -> u64 {
    |m: Message| m.batch
}

/// The batch numbers in queues `n - 1` down to `0`: downstream first, so
/// oldest first.
spec fn in_flight(ch: Seq<Seq<Message>>, n: nat) -> Seq<u64> {
    flat(ch, n, batch_fn())
}

/// Every message of the queue feeding stage `k` carries its batch's input
/// after stages `0..k`, and a stamp no later than `e`.
spec fn queue_ok(cfg: PipelineConfig, q: Seq<Message>, k: int, e: int) -> bool {
    forall|j: int|
        0 <= j < q.len() ==> {
            &&& (#[trigger] q[j]).region@ == after_stages(
                batch_bytes(cfg.seed, q[j].batch, cfg.region_size as nat),
                k as nat,
            )
            &&& q[j].stamp matches Some(s) ==> s.lamport() <= e
        }
}

/// Every returned message holds a region of the configured size and a stamp
/// no later than `e`.
spec fn returns_ok(cfg: PipelineConfig, q: Seq<Message>, e: int) -> bool {
    forall|j: int|
        0 <= j < q.len() ==> {
            &&& (#[trigger] q[j]).region@.len() == cfg.region_size
            &&& q[j].stamp matches Some(s) ==> s.lamport() <= e
        }
}

/// The bounds that `fits` gives every counter of a run.
proof fn lemma_fits(cfg: PipelineConfig)
    requires
        fits(cfg),
    ensures
        2 * cfg.batches * (cfg.stages + 2) + cfg.batches + 2 < u64::MAX,
        cfg.batches * (cfg.stages + 2) <= u64::MAX,
{
    let b = cfg.batches as int;
    let s = cfg.stages as int;
    let x = b * (s + 2);
    assert(2 * b * (s + 2) == 2 * x) by (nonlinear_arith)
        requires
            x == b * (s + 2),
    ;
    assert((2 * x + 1) * (s + 4) >= 4 * (2 * x + 1)) by (nonlinear_arith)
        requires
            x >= 0,
            s >= 0,
    ;
    assert(x >= b) by (nonlinear_arith)
        requires
            b >= 0,
            s >= 0,
            x == b * (s + 2),
    ;
}

/// The worst case of every counter of a run fits in a `u64`: the turns
/// (every region hop, each at most a full idle round apart) and the bytes
/// touched.
pub open spec fn fits(cfg: PipelineConfig) -> bool {
    let b = cfg.batches as int;
    let s = cfg.stages as int;
    &&& s + 4 <= usize::MAX
    &&& (2 * b * (s + 2) + 1) * (s + 4) <= u64::MAX
    &&& b * (s + 2) * cfg.region_size <= u64::MAX
}

spec fn clock_ok(st: Stage, e: int) -> bool {
    match st.clock {
        Some(c) => c.time() <= e,
        None => true,
    }
}

/// A send event at a stage's optional clock: none without a clock,
/// otherwise one tick, stamped.
spec fn stamped_send(
    before: Option<EventClock<usize>>,
    after: Option<EventClock<usize>>,
    s: Option<Stamp<usize>>,
) -> bool {
    match before {
        None => after is None && s is None,
        Some(c) => match (after, s) {
            (Some(c2), Some(st)) => c2.time() == c.time() + 1 && st.lamport() == c2.time(),
            _ => false,
        },
    }
}

/// A receive event at a stage's optional clock, merging the optional stamp
/// the message carried.
spec fn stamped_receive(
    before: Option<EventClock<usize>>,
    after: Option<EventClock<usize>>,
    sent: Option<Stamp<usize>>,
) -> bool {
    match (before, sent) {
        (Some(c), Some(st)) => match after {
            Some(c2) => c2.time() == crate::clock::lamport::max_time(c.time(), st.lamport()) + 1,
            None => false,
        },
        _ => after == before,
    }
}

impl Stage {
    fn send_stamp(&mut self) -> (s: Option<Stamp<usize>>)
        requires
            old(self).clock matches Some(c) ==> c.time() < u64::MAX,
        ensures
            final(self).kind == old(self).kind,
            stamped_send(old(self).clock, final(self).clock, s),
    {
        match &mut self.clock {
            Some(c) => Some(c.send_event()),
            None => None,
        }
    }

    fn receive_stamp(&mut self, sent: &Option<Stamp<usize>>)
        requires
            old(self).clock matches Some(c) ==> c.time() < u64::MAX,
            sent matches Some(st) ==> st.lamport() < u64::MAX,
        ensures
            final(self).kind == old(self).kind,
            stamped_receive(old(self).clock, final(self).clock, *sent),
    {
        match sent {
            Some(st) => match &mut self.clock {
                Some(c) => {
                    c.receive_event(st);
                },
                None => {},
            },
            None => {},
        }
    }
}

struct Ring {
    stages: Vec<Stage>,
    /// `chan[i]` feeds transformer `i`; `chan[stages]` feeds the sink.
    chan: Vec<VecDeque<Message>>,
    returns: VecDeque<Message>,
    pool: VecDeque<Vec<u8>>,
    next_batch: u64,
    results: Vec<BatchResult>,
    stats: Stats,
}

impl Ring {
    spec fn qs(&self) -> Seq<Seq<Message>> {
        self.chan@.map_values(|q: VecDeque<Message>| q@)
    }

    /// What the schedule depends on.
    spec fn counts(&self) -> FlowCounts {
        FlowCounts {
            lens: lens_of(self.qs()),
            ret: self.returns@.len() as int,
            free: self.pool@.len() as int,
            next: self.next_batch as int,
            done: self.results@.len() as int,
        }
    }

    /// Sends still owed before every batch has come back.
    spec fn psi(&self, cfg: PipelineConfig) -> int {
        (cfg.batches - self.next_batch) * (cfg.stages + 2) + hops_left(
            self.qs(),
            (cfg.stages + 1) as nat,
            cfg.stages + 1,
        )
    }

    /// What every turn that does something decreases.
    spec fn phi(&self, cfg: PipelineConfig) -> int {
        2 * self.psi(cfg) + self.returns@.len()
    }

    /// No clock, and no stamp in flight, is later than this.
    spec fn clock_bound(&self) -> int {
        2 * self.stats.messages + self.results@.len() - self.returns@.len()
    }

    spec fn idle_kind(&self, cfg: PipelineConfig, kind: Kind) -> bool {
        match kind {
            Kind::Supervisor => true,
            Kind::Producer => self.returns@.len() == 0 && !(self.next_batch < cfg.batches
                && self.pool@.len() > 0),
            Kind::Transformer(i) => self.qs()[i as int].len() == 0,
            Kind::Sink => self.qs()[cfg.stages as int].len() == 0,
        }
    }

    spec fn inv(&self, cfg: PipelineConfig) -> bool {
        let s = cfg.stages as int;
        let q = self.qs();
        let e = self.clock_bound();
        &&& self.stages@.len() == s + 3
        &&& forall|k: int| 0 <= k < s + 3 ==> (#[trigger] self.stages@[k]).kind == kind_at(k, s)
        &&& forall|k: int| 0 <= k < s + 3 ==> clock_ok(#[trigger] self.stages@[k], e)
        &&& q.len() == s + 1
        &&& self.next_batch <= cfg.batches
        &&& self.results@.len() <= self.next_batch
        &&& in_flight(q, (s + 1) as nat) == batch_range(self.results@.len() as int, self.next_batch as int)
        &&& forall|k: int| 0 <= k <= s ==> #[trigger] queue_ok(cfg, q[k], k, e)
        &&& returns_ok(cfg, self.returns@, e)
        &&& forall|j: int| 0 <= j < self.pool@.len() ==> (#[trigger] self.pool@[j])@.len() == cfg.region_size
        &&& self.pool@.len() + in_flight(q, (s + 1) as nat).len() + self.returns@.len() == cfg.pool
        &&& forall|j: int| 0 <= j < self.results@.len() ==> #[trigger] self.results@[j] == expected_result(cfg, j)
        &&& self.returns@.len() <= self.results@.len() <= self.stats.messages
        &&& self.stats.messages + self.psi(cfg) == cfg.batches * (s + 2)
        &&& self.stats.bytes_processed == self.stats.messages * cfg.region_size
    }

    proof fn lemma_psi_nonneg(&self, cfg: PipelineConfig)
        requires
            self.inv(cfg),
        ensures
            self.psi(cfg) >= 0,
            self.stats.messages <= cfg.batches * (cfg.stages + 2),
            self.clock_bound() <= 2 * cfg.batches * (cfg.stages + 2) + cfg.batches,
    {
        lemma_hops_nonneg(self.qs(), (cfg.stages + 1) as nat, cfg.stages + 1);
        let d = cfg.batches - self.next_batch;
        assert(d * (cfg.stages + 2) >= 0) by (nonlinear_arith)
            requires
                d >= 0,
        ;
        let b = cfg.batches as int;
        let s = cfg.stages as int;
        assert(2 * b * (s + 2) == 2 * (b * (s + 2))) by (nonlinear_arith);
    }

    /// Raising the clock bound keeps every stamp under it.
    proof fn lemma_lift(&self, cfg: PipelineConfig, e1: int, e2: int)
        requires
            e1 <= e2,
            self.qs().len() == cfg.stages + 1,
            forall|k: int| 0 <= k <= cfg.stages ==> #[trigger] queue_ok(cfg, self.qs()[k], k, e1),
            returns_ok(cfg, self.returns@, e1),
        ensures
            forall|k: int| 0 <= k <= cfg.stages ==> #[trigger] queue_ok(cfg, self.qs()[k], k, e2),
            returns_ok(cfg, self.returns@, e2),
    {
        assert forall|k: int| 0 <= k <= cfg.stages implies #[trigger] queue_ok(cfg, self.qs()[k], k, e2) by {
            let q = self.qs()[k];
            assert(queue_ok(cfg, q, k, e1));
            assert forall|j: int| 0 <= j < q.len() implies (#[trigger] q[j]).stamp matches Some(st) ==> st.lamport() <= e2 by {
                assert(q[j].stamp matches Some(st) ==> st.lamport() <= e1);
            }
        }
        assert forall|j: int| 0 <= j < self.returns@.len() implies (#[trigger] self.returns@[j]).stamp matches Some(st) ==> st.lamport() <= e2 by {
            assert(self.returns@[j].stamp matches Some(st) ==> st.lamport() <= e1);
        }
    }

    /// A stage with nothing to do changes nothing the schedule sees.
    proof fn lemma_idle_counts(a: Ring, cfg: PipelineConfig, t: int)
        requires
            a.qs().len() == cfg.stages + 1,
            0 <= t < cfg.stages + 3,
            a.idle_kind(cfg, kind_at(t, cfg.stages as int)),
        ensures
            flow_turn(a.counts(), t, cfg.stages as int, cfg.batches as int) == (a.counts(), false),
    {
        let n = cfg.stages as int;
        if t == 1 {
            assert(a.counts().lens[n] == 0);
        } else if 2 <= t <= n + 1 {
            assert(a.counts().lens[n + 1 - t] == 0);
        }
    }

    /// The sink's move: one message off its channel, one region on its way
    /// back, one batch done.
    proof fn lemma_sink_counts(a: Ring, b: Ring, cfg: PipelineConfig)
        requires
            a.qs().len() == cfg.stages + 1,
            a.qs()[cfg.stages as int].len() > 0,
            b.qs() == a.qs().update(cfg.stages as int, a.qs()[cfg.stages as int].drop_first()),
            b.returns@.len() == a.returns@.len() + 1,
            b.results@.len() == a.results@.len() + 1,
            b.pool@.len() == a.pool@.len(),
            b.next_batch == a.next_batch,
        ensures
            flow_turn(a.counts(), 1, cfg.stages as int, cfg.batches as int) == (b.counts(), true),
    {
        let n = cfg.stages as int;
        assert(b.counts().lens =~= a.counts().lens.update(n, a.counts().lens[n] - 1));
    }

    /// A transformer's move: one message from its channel to the next.
    proof fn lemma_transformer_counts(a: Ring, b: Ring, cfg: PipelineConfig, i: int, m: Message)
        requires
            a.qs().len() == cfg.stages + 1,
            0 <= i < cfg.stages,
            a.qs()[i].len() > 0,
            b.qs() == a.qs().update(i, a.qs()[i].drop_first()).update(i + 1, a.qs()[i + 1].push(m)),
            b.returns@.len() == a.returns@.len(),
            b.results@.len() == a.results@.len(),
            b.pool@.len() == a.pool@.len(),
            b.next_batch == a.next_batch,
        ensures
            flow_turn(a.counts(), cfg.stages - i + 1, cfg.stages as int, cfg.batches as int) == (
                b.counts(),
                true,
            ),
    {
        let c = a.counts();
        assert(b.counts().lens =~= c.lens.update(i, c.lens[i] - 1).update(i + 1, c.lens[i + 1] + 1));
    }

    /// The producer's move: every returned region back in the pool, then,
    /// when there is a batch left and a region for it, one batch sent.
    proof fn lemma_producer_counts(a: Ring, b: Ring, cfg: PipelineConfig, sent: Option<Message>)
        requires
            a.qs().len() == cfg.stages + 1,
            b.returns@.len() == 0,
            b.results@.len() == a.results@.len(),
            sent is Some <==> (a.next_batch < cfg.batches && a.pool@.len() + a.returns@.len() > 0),
            sent matches Some(m) ==> {
                &&& b.qs() == a.qs().update(0, a.qs()[0].push(m))
                &&& b.pool@.len() == a.pool@.len() + a.returns@.len() - 1
                &&& b.next_batch == a.next_batch + 1
            },
            sent is None ==> {
                &&& b.qs() == a.qs()
                &&& b.pool@.len() == a.pool@.len() + a.returns@.len()
                &&& b.next_batch == a.next_batch
            },
        ensures
            flow_turn(a.counts(), cfg.stages + 2, cfg.stages as int, cfg.batches as int) == (
                b.counts(),
                a.returns@.len() > 0 || sent is Some,
            ),
    {
        let c = a.counts();
        if sent is Some {
            assert(b.counts().lens =~= c.lens.update(0, c.lens[0] + 1));
        } else {
            assert(b.counts().lens =~= c.lens);
        }
    }

    /// The sink's turn: take the oldest batch, record its checksum, and
    /// send the region back to the producer.
    fn sink_turn(&mut self, cfg: &PipelineConfig) -> (progressed: bool)
        requires
            old(self).inv(*cfg),
            fits(*cfg),
        ensures
            final(self).inv(*cfg),
            progressed == !old(self).idle_kind(*cfg, Kind::Sink),
            !progressed ==> *final(self) == *old(self),
            progressed ==> final(self).phi(*cfg) < old(self).phi(*cfg),
            final(self).stats.scheduler_turns == old(self).stats.scheduler_turns,
            final(self).stats.idle_turns == old(self).stats.idle_turns,
            flow_turn(old(self).counts(), 1, cfg.stages as int, cfg.batches as int) == (
                final(self).counts(),
                progressed,
            ),
    {
        let s = cfg.stages;
        if self.chan[s].len() == 0 {
            proof {
                assert(self.qs()[s as int] == self.chan@[s as int]@);
                Ring::lemma_idle_counts(*self, *cfg, 1);
            }
            return false;
        }
        let ghost q0 = self.qs();
        let ghost e0 = self.clock_bound();
        proof {
            self.lemma_psi_nonneg(*cfg);
            lemma_fits(*cfg);
            assert(queue_ok(*cfg, q0[s as int], s as int, e0));
            assert(clock_ok(self.stages@[1], e0));
            assert(self.stages@[1].kind == Kind::Sink);
        }
        let mut m = self.chan[s].pop_front().unwrap();
        let ghost q1 = q0.update(s as int, q0[s as int].drop_first());
        proof {
            assert(self.qs() =~= q1);
            assert(m == q0[s as int][0]);
            lemma_flat_pop(q0, (s + 1) as nat, batch_fn());
            lemma_hops_update(q0, s as int, q0[s as int].drop_first(), (s + 1) as nat, s + 1);
            lemma_hops_nonneg(q1, (s + 1) as nat, s + 1);
        }
        self.stages[1].receive_stamp(&m.stamp);
        let sum = checksum(m.region.as_slice());
        self.results.push(BatchResult { batch: m.batch, checksum: sum });
        proof {
            let b = cfg.batches as int;
            let r = cfg.region_size as int;
            let n = self.stats.messages as int;
            let x = b * (s + 2);
            assert(n + 1 <= x);
            assert((n + 1) * r <= x * r && (n + 1) * r == n * r + r) by (nonlinear_arith)
                requires
                    n + 1 <= x,
                    r >= 0,
            ;
            assert(x * r == b * (s + 2) * r) by (nonlinear_arith)
                requires
                    x == b * (s + 2),
            ;
        }
        self.stats.bytes_processed = self.stats.bytes_processed + cfg.region_size as u64;
        m.stamp = self.stages[1].send_stamp();
        self.returns.push_back(m);
        self.stats.messages = self.stats.messages + 1;
        proof {
            let e1 = self.clock_bound();
            assert(e1 == e0 + 2);
            crate::workload::data::lemma_after_stages_len(batch_bytes(cfg.seed, m.batch, cfg.region_size as nat), s as nat);
            assert(self.qs() =~= q1);
            assert forall|k: int| 0 <= k < s + 3 implies clock_ok(#[trigger] self.stages@[k], e1) by {
                if k != 1 {
                    assert(clock_ok(old(self).stages@[k], e0));
                }
            }
            assert forall|k: int| 0 <= k < s + 3 implies (#[trigger] self.stages@[k]).kind == kind_at(k, s as int) by {
                assert(old(self).stages@[k].kind == kind_at(k, s as int));
            }
            assert forall|k: int| 0 <= k <= s implies #[trigger] queue_ok(*cfg, q1[k], k, e1) by {
                assert(queue_ok(*cfg, q0[k], k, e0));
                let q = q1[k];
                assert forall|j: int| 0 <= j < q.len() implies {
                    &&& (#[trigger] q[j]).region@ == after_stages(batch_bytes(cfg.seed, q[j].batch, cfg.region_size as nat), k as nat)
                    &&& q[j].stamp matches Some(st) ==> st.lamport() <= e1
                } by {
                    if k == s {
                        assert(q[j] == q0[k][j + 1]);
                    } else {
                        assert(q[j] == q0[k][j]);
                    }
                }
            }
            assert forall|j: int| 0 <= j < self.returns@.len() implies {
                &&& (#[trigger] self.returns@[j]).region@.len() == cfg.region_size
                &&& self.returns@[j].stamp matches Some(st) ==> st.lamport() <= e1
            } by {
                if j < old(self).returns@.len() {
                    assert(self.returns@[j] == old(self).returns@[j]);
                }
            }
            assert(in_flight(q1, (s + 1) as nat) =~= batch_range(self.results@.len() as int, self.next_batch as int));
            assert forall|j: int| 0 <= j < self.results@.len() implies #[trigger] self.results@[j] == expected_result(*cfg, j) by {
                if j < old(self).results@.len() {
                    assert(self.results@[j] == old(self).results@[j]);
                }
            }
        }
        proof {
            Ring::lemma_sink_counts(*old(self), *self, *cfg);
        }
        true
    }

    /// Transformer `i`'s turn: take the oldest batch on its input, apply its
    /// transform, and pass the region on.
    fn transformer_turn(&mut self, i: usize, cfg: &PipelineConfig) -> (progressed: bool)
        requires
            old(self).inv(*cfg),
            fits(*cfg),
            i < cfg.stages,
        ensures
            final(self).inv(*cfg),
            progressed == !old(self).idle_kind(*cfg, Kind::Transformer(i)),
            !progressed ==> *final(self) == *old(self),
            progressed ==> final(self).phi(*cfg) < old(self).phi(*cfg),
            final(self).stats.scheduler_turns == old(self).stats.scheduler_turns,
            final(self).stats.idle_turns == old(self).stats.idle_turns,
            flow_turn(old(self).counts(), cfg.stages - i + 1, cfg.stages as int, cfg.batches as int) == (
                final(self).counts(),
                progressed,
            ),
    {
        let s = cfg.stages;
        let t = s - i + 1;
        if self.chan[i].len() == 0 {
            proof {
                assert(self.qs()[i as int] == self.chan@[i as int]@);
                Ring::lemma_idle_counts(*self, *cfg, t as int);
            }
            return false;
        }
        let ghost q0 = self.qs();
        let ghost e0 = self.clock_bound();
        proof {
            self.lemma_psi_nonneg(*cfg);
            lemma_fits(*cfg);
            assert(queue_ok(*cfg, q0[i as int], i as int, e0));
            assert(clock_ok(self.stages@[t as int], e0));
            assert(self.stages@[t as int].kind == Kind::Transformer(i));
        }
        let mut m = self.chan[i].pop_front().unwrap();
        let ghost m0 = m;
        let ghost q1 = q0.update(i as int, q0[i as int].drop_first());
        proof {
            assert(self.qs() =~= q1);
            assert(m == q0[i as int][0]);
            lemma_hops_update(q0, i as int, q0[i as int].drop_first(), (s + 1) as nat, s + 1);
        }
        self.stages[t].receive_stamp(&m.stamp);
        transform(i, m.region.as_mut_slice());
        proof {
            let b = cfg.batches as int;
            let r = cfg.region_size as int;
            let n = self.stats.messages as int;
            let x = b * (s + 2);
            assert(hops_left(q1, (s + 1) as nat, s + 1) >= 0) by {
                lemma_hops_nonneg(q1, (s + 1) as nat, s + 1);
            }
            assert(n + 1 <= x);
            assert((n + 1) * r <= x * r && (n + 1) * r == n * r + r) by (nonlinear_arith)
                requires
                    n + 1 <= x,
                    r >= 0,
            ;
            assert(x * r == b * (s + 2) * r) by (nonlinear_arith)
                requires
                    x == b * (s + 2),
            ;
        }
        self.stats.bytes_processed = self.stats.bytes_processed + cfg.region_size as u64;
        m.stamp = self.stages[t].send_stamp();
        let ghost q2 = q1.update(i + 1, q1[i + 1].push(m));
        self.chan[i + 1].push_back(m);
        self.stats.messages = self.stats.messages + 1;
        proof {
            let e1 = self.clock_bound();
            assert(e1 == e0 + 2);
            assert(self.qs() =~= q2);
            assert(q2 == q0.update(i as int, q0[i as int].drop_first()).update(i + 1, q0[i + 1].push(m)));
            lemma_flat_shift(q0, i as int, m, (s + 1) as nat, batch_fn());
            lemma_hops_update(q1, i + 1, q1[i + 1].push(m), (s + 1) as nat, s + 1);
            assert(after_stages(batch_bytes(cfg.seed, m.batch, cfg.region_size as nat), (i + 1) as nat)
                == crate::workload::data::transformed(
                crate::workload::data::stage_key(i),
                after_stages(batch_bytes(cfg.seed, m.batch, cfg.region_size as nat), i as nat),
            ));
            assert forall|k: int| 0 <= k < s + 3 implies clock_ok(#[trigger] self.stages@[k], e1) by {
                if k != t {
                    assert(clock_ok(old(self).stages@[k], e0));
                }
            }
            assert forall|k: int| 0 <= k < s + 3 implies (#[trigger] self.stages@[k]).kind == kind_at(k, s as int) by {
                assert(old(self).stages@[k].kind == kind_at(k, s as int));
            }
            assert forall|k: int| 0 <= k <= s implies #[trigger] queue_ok(*cfg, q2[k], k, e1) by {
                assert(queue_ok(*cfg, q0[k], k, e0));
                let q = q2[k];
                assert forall|j: int| 0 <= j < q.len() implies {
                    &&& (#[trigger] q[j]).region@ == after_stages(batch_bytes(cfg.seed, q[j].batch, cfg.region_size as nat), k as nat)
                    &&& q[j].stamp matches Some(st) ==> st.lamport() <= e1
                } by {
                    if k == i {
                        assert(q[j] == q0[k][j + 1]);
                    } else if k == i + 1 && j == q.len() - 1 {
                        assert(q[j] == m);
                    } else {
                        assert(q[j] == q0[k][j]);
                    }
                }
            }
            assert forall|j: int| 0 <= j < self.returns@.len() implies {
                &&& (#[trigger] self.returns@[j]).region@.len() == cfg.region_size
                &&& self.returns@[j].stamp matches Some(st) ==> st.lamport() <= e1
            } by {
                assert(self.returns@[j] == old(self).returns@[j]);
            }
        }
        proof {
            Ring::lemma_transformer_counts(*old(self), *self, *cfg, i as int, m);
        }
        true
    }

    /// The producer's turn: take back every returned region, then fill the
    /// oldest free one with the next batch and send it, if any is left.
    fn producer_turn(&mut self, cfg: &PipelineConfig) -> (progressed: bool)
        requires
            old(self).inv(*cfg),
            fits(*cfg),
        ensures
            final(self).inv(*cfg),
            progressed == !old(self).idle_kind(*cfg, Kind::Producer),
            !progressed ==> *final(self) == *old(self),
            progressed ==> final(self).phi(*cfg) < old(self).phi(*cfg),
            final(self).stats.scheduler_turns == old(self).stats.scheduler_turns,
            final(self).stats.idle_turns == old(self).stats.idle_turns,
            flow_turn(old(self).counts(), cfg.stages + 2, cfg.stages as int, cfg.batches as int) == (
                final(self).counts(),
                progressed,
            ),
    {
        let s = cfg.stages;
        let t = s + 2;
        let mut progressed = false;
        proof {
            lemma_fits(*cfg);
        }
        while self.returns.len() > 0
            invariant
                self.inv(*cfg),
                fits(*cfg),
                2 * cfg.batches * (cfg.stages + 2) + cfg.batches + 2 < u64::MAX,
                t == s + 2,
                s == cfg.stages,
                progressed ==> self.phi(*cfg) < old(self).phi(*cfg),
                !progressed ==> *self == *old(self),
                progressed ==> old(self).returns@.len() > 0,
                self.next_batch == old(self).next_batch,
                self.stats == old(self).stats,
                self.qs() == old(self).qs(),
                self.results@ == old(self).results@,
                self.returns@.len() + self.pool@.len() == old(self).returns@.len() + old(self).pool@.len(),
                progressed == (self.returns@.len() < old(self).returns@.len()),
            decreases self.returns@.len(),
        {
            let ghost e0 = self.clock_bound();
            let ghost r0 = self.returns@;
            let ghost st0 = self.stages@;
            proof {
                self.lemma_psi_nonneg(*cfg);
                assert(clock_ok(self.stages@[t as int], e0));
                assert(self.stages@[t as int].kind == Kind::Producer);
            }
            let m = self.returns.pop_front().unwrap();
            proof {
                assert(m == r0[0]);
            }
            self.stages[t].receive_stamp(&m.stamp);
            self.pool.push_back(m.region);
            progressed = true;
            proof {
                let e1 = self.clock_bound();
                assert(e1 == e0 + 1);
                assert forall|k: int| 0 <= k < s + 3 implies clock_ok(#[trigger] self.stages@[k], e0 + 1) by {
                    if k != t {
                        assert(clock_ok(st0[k], e0));
                    }
                }
                assert forall|k: int| 0 <= k < s + 3 implies (#[trigger] self.stages@[k]).kind == kind_at(k, s as int) by {
                    assert(st0[k].kind == kind_at(k, s as int));
                }
                assert forall|j: int| 0 <= j < self.returns@.len() implies {
                    &&& (#[trigger] self.returns@[j]).region@.len() == cfg.region_size
                    &&& self.returns@[j].stamp matches Some(st) ==> st.lamport() <= e0
                } by {
                    assert(self.returns@[j] == r0[j + 1]);
                }
                assert forall|j: int| 0 <= j < self.pool@.len() implies (#[trigger] self.pool@[j])@.len() == cfg.region_size by {
                    if j + 1 == self.pool@.len() {
                        assert(self.pool@[j] == m.region);
                    }
                }
                self.lemma_lift(*cfg, e0, e1);
            }
        }
        let ghost mut sent: Option<Message> = None;
        if self.next_batch < cfg.batches && self.pool.len() > 0 {
            let ghost q0 = self.qs();
            let ghost e0 = self.clock_bound();
            let ghost p0 = self.pool@;
            let ghost st0 = self.stages@;
            proof {
                self.lemma_psi_nonneg(*cfg);
                assert(clock_ok(self.stages@[t as int], e0));
                assert(self.stages@[t as int].kind == Kind::Producer);
            }
            let mut region = self.pool.pop_front().unwrap();
            proof {
                assert(region == p0[0]);
            }
            let batch = self.next_batch;
            fill_batch(cfg.seed, batch, region.as_mut_slice());
            proof {
                let b = cfg.batches as int;
                let r = cfg.region_size as int;
                let n = self.stats.messages as int;
                let x = b * (s + 2);
                let d = b - batch;
                assert(d * (s + 2) >= s + 2) by (nonlinear_arith)
                    requires
                        d >= 1,
                        s >= 0,
                ;
                assert(hops_left(q0, (s + 1) as nat, s + 1) >= 0) by {
                    lemma_hops_nonneg(q0, (s + 1) as nat, s + 1);
                }
                assert(n + 1 <= x);
                assert((n + 1) * r <= x * r && (n + 1) * r == n * r + r) by (nonlinear_arith)
                    requires
                        n + 1 <= x,
                        r >= 0,
                ;
                assert(x * r == b * (s + 2) * r) by (nonlinear_arith)
                    requires
                        x == b * (s + 2),
                ;
                assert((d - 1) * (s + 2) == d * (s + 2) - (s + 2)) by (nonlinear_arith);
            }
            self.stats.bytes_processed = self.stats.bytes_processed + cfg.region_size as u64;
            let stamp = self.stages[t].send_stamp();
            let m = Message { batch, region, stamp };
            let ghost q1 = q0.update(0, q0[0].push(m));
            self.chan[0].push_back(m);
            self.stats.messages = self.stats.messages + 1;
            self.next_batch = self.next_batch + 1;
            progressed = true;
            proof {
                sent = Some(m);
                let e1 = self.clock_bound();
                assert(e1 == e0 + 2);
                assert(self.qs() =~= q1);
                lemma_flat_push(q0, m, (s + 1) as nat, batch_fn());
                lemma_hops_update(q0, 0, q0[0].push(m), (s + 1) as nat, s + 1);
                assert(in_flight(q1, (s + 1) as nat) =~= batch_range(self.results@.len() as int, self.next_batch as int));
                assert forall|k: int| 0 <= k < s + 3 implies clock_ok(#[trigger] self.stages@[k], e1) by {
                    if k != t {
                        assert(clock_ok(st0[k], e0));
                    }
                }
                assert forall|k: int| 0 <= k < s + 3 implies (#[trigger] self.stages@[k]).kind == kind_at(k, s as int) by {
                    assert(st0[k].kind == kind_at(k, s as int));
                }
                assert forall|k: int| 0 <= k <= s implies #[trigger] queue_ok(*cfg, q1[k], k, e1) by {
                    assert(queue_ok(*cfg, q0[k], k, e0));
                    let q = q1[k];
                    assert forall|j: int| 0 <= j < q.len() implies {
                        &&& (#[trigger] q[j]).region@ == after_stages(batch_bytes(cfg.seed, q[j].batch, cfg.region_size as nat), k as nat)
                        &&& q[j].stamp matches Some(st) ==> st.lamport() <= e1
                    } by {
                        if k == 0 && j == q.len() - 1 {
                            assert(q[j] == m);
                        } else {
                            assert(q[j] == q0[k][j]);
                        }
                    }
                }
                assert forall|j: int| 0 <= j < self.returns@.len() implies {
                    &&& (#[trigger] self.returns@[j]).region@.len() == cfg.region_size
                    &&& self.returns@[j].stamp matches Some(st) ==> st.lamport() <= e1
                } by {
                    assert(returns_ok(*cfg, self.returns@, e0));
                }
                assert forall|j: int| 0 <= j < self.pool@.len() implies (#[trigger] self.pool@[j])@.len() == cfg.region_size by {
                    assert(self.pool@[j] == p0[j + 1]);
                }
            }
        }
        proof {
            Ring::lemma_producer_counts(*old(self), *self, *cfg, sent);
        }
        progressed
    }

    /// One turn of the stage at position `t`. Answers whether it did anything.
    fn take_turn(&mut self, t: usize, cfg: &PipelineConfig) -> (progressed: bool)
        requires
            old(self).inv(*cfg),
            fits(*cfg),
            t < cfg.stages + 3,
        ensures
            final(self).inv(*cfg),
            progressed == !old(self).idle_kind(*cfg, kind_at(t as int, cfg.stages as int)),
            !progressed ==> *final(self) == *old(self),
            progressed ==> final(self).phi(*cfg) < old(self).phi(*cfg),
            final(self).stats.scheduler_turns == old(self).stats.scheduler_turns,
            final(self).stats.idle_turns == old(self).stats.idle_turns,
            flow_turn(old(self).counts(), t as int, cfg.stages as int, cfg.batches as int) == (
                final(self).counts(),
                progressed,
            ),
    {
        proof {
            assert(self.stages@[t as int].kind == kind_at(t as int, cfg.stages as int));
        }
        match self.stages[t].kind {
            Kind::Supervisor => false,
            Kind::Producer => self.producer_turn(cfg),
            Kind::Transformer(i) => self.transformer_turn(i, cfg),
            Kind::Sink => self.sink_turn(cfg),
        }
    }
}

fn new_stage(kind: Kind, i: usize, clocks: bool) -> (st: Stage)
    ensures
        st.kind == kind,
        clock_ok(st, 0),
{
    Stage { kind, clock: if clocks { Some(EventClock::new(i)) } else { None } }
}

/// Every stage idle means every batch is done, as long as there is a region
/// to carry one.
proof fn lemma_all_idle(ring: Ring, cfg: PipelineConfig)
    requires
        ring.inv(cfg),
        cfg.pool > 0,
        forall|k: int| 0 <= k < cfg.stages + 3 ==> #[trigger] ring.idle_kind(cfg, kind_at(k, cfg.stages as int)),
    ensures
        ring.results@.len() == cfg.batches,
{
    let s = cfg.stages as int;
    let q = ring.qs();
    assert forall|k: int| 0 <= k < s + 1 implies (#[trigger] q[k]).len() == 0 by {
        if k == s {
            assert(ring.idle_kind(cfg, kind_at(1, s)));
        } else {
            assert(ring.idle_kind(cfg, kind_at(s + 1 - k, s)));
        }
    }
    lemma_flat_len(q, (s + 1) as nat, batch_fn());
    assert(ring.idle_kind(cfg, kind_at(s + 2, s)));
}

/// With no region to carry a batch, nothing ever moves.
proof fn lemma_empty_pool_idle(ring: Ring, cfg: PipelineConfig, t: int)
    requires
        ring.inv(cfg),
        cfg.pool == 0,
        0 <= t < cfg.stages + 3,
    ensures
        ring.idle_kind(cfg, kind_at(t, cfg.stages as int)),
{
    let s = cfg.stages as int;
    let q = ring.qs();
    lemma_flat_len(q, (s + 1) as nat, batch_fn());
    assert(q[s].len() == 0);
    if 2 <= t <= s + 1 {
        assert(q[s + 1 - t].len() == 0);
    }
}

/// Runs the pipeline with ambient authority, optionally with clocks. The
/// results are every batch once, in order, each with its reference
/// checksum; the run stalls only without a region to carry a batch.
pub fn run_baseline(config: PipelineConfig, clocks: bool) -> (r: Result<BaselineReport, PipelineError>)
    requires
        fits(config),
    ensures
        r is Ok <==> (config.batches == 0 || config.pool > 0),
        r is Err ==> r == Err::<BaselineReport, PipelineError>(
            PipelineError::Stalled { turns: (config.stages + 4) as u64 },
        ),
        r matches Ok(rep) ==> completed_run(config, rep.results@, rep.stats),
{
    let s = config.stages;
    proof {
        lemma_fits(config);
    }
    // The order the kernel pipeline's scheduler round-robins in.
    let mut stages: Vec<Stage> = Vec::new();
    stages.push(new_stage(Kind::Supervisor, 0, clocks));
    stages.push(new_stage(Kind::Sink, 1, clocks));
    let mut j: usize = 0;
    while j < s
        invariant
            j <= s,
            s + 4 <= usize::MAX,
            stages@.len() == j + 2,
            forall|k: int| 0 <= k < j + 2 ==> (#[trigger] stages@[k]).kind == kind_at(k, s as int),
            forall|k: int| 0 <= k < j + 2 ==> clock_ok(#[trigger] stages@[k], 0),
        decreases s - j,
    {
        stages.push(new_stage(Kind::Transformer(s - 1 - j), j + 2, clocks));
        j = j + 1;
    }
    stages.push(new_stage(Kind::Producer, s + 2, clocks));
    // chan[i] feeds transformer i; chan[s] feeds the sink.
    let mut chan: Vec<VecDeque<Message>> = Vec::new();
    let mut j: usize = 0;
    while j <= s
        invariant
            j <= s + 1,
            s + 4 <= usize::MAX,
            chan@.len() == j,
            forall|k: int| 0 <= k < j ==> (#[trigger] chan@[k])@.len() == 0,
        decreases s + 1 - j,
    {
        chan.push(VecDeque::new());
        j = j + 1;
    }
    let mut pool: VecDeque<Vec<u8>> = VecDeque::new();
    let mut j: usize = 0;
    while j < config.pool
        invariant
            j <= config.pool,
            pool@.len() == j,
            forall|k: int| 0 <= k < j ==> (#[trigger] pool@[k])@.len() == config.region_size,
        decreases config.pool - j,
    {
        let mut region: Vec<u8> = Vec::new();
        let mut b: usize = 0;
        while b < config.region_size
            invariant
                b <= config.region_size,
                region@.len() == b,
            decreases config.region_size - b,
        {
            region.push(0);
            b = b + 1;
        }
        pool.push_back(region);
        j = j + 1;
    }
    let mut ring = Ring {
        stages,
        chan,
        returns: VecDeque::new(),
        pool,
        next_batch: 0,
        results: Vec::new(),
        stats: Stats { scheduler_turns: 0, idle_turns: 0, messages: 0, bytes_processed: 0 },
    };
    proof {
        let q = ring.qs();
        assert forall|k: int| 0 <= k < s + 1 implies (#[trigger] q[k]).len() == 0 by {
            assert(q[k] == ring.chan@[k]@);
        }
        lemma_flat_len(q, (s + 1) as nat, batch_fn());
        assert(in_flight(q, (s + 1) as nat) =~= batch_range(0, 0));
        lemma_hops_empty(q, (s + 1) as nat, s + 1);
        assert forall|k: int| 0 <= k <= s implies #[trigger] queue_ok(config, q[k], k, 0) by {
            assert(q[k].len() == 0);
        }
        assert(ring.inv(config));
        assert(ring.counts().lens =~= initial_counts(config).lens);
        assert(ring.counts() == initial_counts(config));
        let b = config.batches as int;
        assert(ring.phi(config) == 2 * (b * (s + 2)));
        assert(2 * b * (s + 2) == 2 * (b * (s + 2))) by (nonlinear_arith);
    }
    let processes: u64 = (s + 3) as u64;
    let mut idle_streak: u64 = 0;
    let mut turn: usize = 0;
    while (ring.results.len() as u64) < config.batches
        invariant
            fits(config),
            ring.inv(config),
            s == config.stages,
            processes == s + 3,
            turn < s + 3,
            idle_streak <= processes,
            forall|k: int|
                0 <= k < s + 3 && ((turn - idle_streak <= k < turn) || k >= s + 3 + turn - idle_streak)
                    ==> #[trigger] ring.idle_kind(config, kind_at(k, s as int)),
            ring.stats.scheduler_turns <= (2 * config.batches * (s + 2) - ring.phi(config)) * (s + 4)
                + idle_streak,
            ring.stats.idle_turns <= ring.stats.scheduler_turns,
            config.pool == 0 ==> ring.stats.scheduler_turns == idle_streak && ring.results@.len() == 0,
            ring.stats.scheduler_turns + schedule(
                ring.counts(),
                turn as int,
                idle_streak as int,
                s as int,
                config.batches as int,
                (turn_budget(config) - ring.stats.scheduler_turns) as nat,
            ).0 == schedule_stats(config).0,
            ring.stats.idle_turns + schedule(
                ring.counts(),
                turn as int,
                idle_streak as int,
                s as int,
                config.batches as int,
                (turn_budget(config) - ring.stats.scheduler_turns) as nat,
            ).1 == schedule_stats(config).1,
        decreases ring.phi(config), processes + 1 - idle_streak,
    {
        let ghost before = ring;
        let ghost phi0 = ring.phi(config);
        let ghost fuel0 = (turn_budget(config) - ring.stats.scheduler_turns) as nat;
        let ghost streak0 = idle_streak as int;
        proof {
            ring.lemma_psi_nonneg(config);
            let b = config.batches as int;
            let x = 2 * b * (s + 2);
            let p = s + 4;
            assert((x - phi0) * p <= x * p) by (nonlinear_arith)
                requires
                    phi0 >= 0,
                    p >= 0,
            ;
            assert((x + 1) * p == x * p + p) by (nonlinear_arith);
            assert(ring.stats.scheduler_turns < turn_budget(config));
            if config.pool == 0 {
                lemma_empty_pool_idle(ring, config, turn as int);
            }
        }
        let progressed = ring.take_turn(turn, &config);
        let t0 = turn;
        turn = if turn + 1 == s + 3 { 0 } else { turn + 1 };
        ring.stats.scheduler_turns = ring.stats.scheduler_turns + 1;
        proof {
            let b = config.batches as int;
            let r = schedule(ring.counts(), turn as int, if progressed { 0 } else { streak0 + 1 }, s as int, b, (fuel0 - 1) as nat);
            assert(fuel0 - 1 == turn_budget(config) - ring.stats.scheduler_turns);
            assert(before.counts().done < b);
            if progressed {
                assert(schedule(before.counts(), t0 as int, streak0, s as int, b, fuel0) == (r.0 + 1, r.1));
            } else if streak0 + 1 <= s + 3 {
                assert(ring.counts() == before.counts());
                assert(schedule(before.counts(), t0 as int, streak0, s as int, b, fuel0) == (r.0 + 1, r.1 + 1));
            }
        }
        if progressed {
            proof {
                let b = config.batches as int;
                let x = 2 * b * (s + 2);
                let p = s + 4;
                let phi1 = ring.phi(config);
                assert((x - phi0) * p + p <= (x - phi1) * p) by (nonlinear_arith)
                    requires
                        phi1 < phi0,
                        p >= 0,
                ;
            }
            idle_streak = 0;
            assert(ring.phi(config) < phi0);
            proof {
                ring.lemma_psi_nonneg(config);
            }
        } else {
            ring.stats.idle_turns = ring.stats.idle_turns + 1;
            idle_streak = idle_streak + 1;
            if idle_streak > processes {
                proof {
                    if config.pool > 0 {
                        assert forall|k: int| 0 <= k < config.stages + 3 implies #[trigger] ring.idle_kind(
                            config,
                            kind_at(k, config.stages as int),
                        ) by {
                            assert(before.idle_kind(config, kind_at(k, s as int)));
                        }
                        lemma_all_idle(ring, config);
                    }
                }
                return Err(PipelineError::Stalled { turns: ring.stats.scheduler_turns });
            }
            assert(ring.phi(config) == phi0);
            proof {
                assert forall|k: int|
                    0 <= k < s + 3 && ((turn - idle_streak <= k < turn) || k >= s + 3 + turn - idle_streak)
                    implies #[trigger] ring.idle_kind(config, kind_at(k, s as int)) by {
                    if k != t0 {
                        assert(before.idle_kind(config, kind_at(k, s as int)));
                    }
                }
            }
        }
    }
    proof {
        let q = ring.qs();
        lemma_flat_len(q, (s + 1) as nat, batch_fn());
        lemma_hops_empty(q, (s + 1) as nat, s + 1);
        let b = config.batches as int;
        let r = config.region_size as int;
        assert(ring.results@.len() == b);
        assert(ring.next_batch == b);
        assert(hops_left(q, (s + 1) as nat, s + 1) == 0);
        assert((b - ring.next_batch) * (s + 2) == 0) by (nonlinear_arith)
            requires
                b - ring.next_batch == 0,
        ;
        assert(ring.psi(config) == 0);
        assert(ring.stats.messages == b * (s + 2));
        assert(ring.stats.bytes_processed == b * (s + 2) * r);
        assert(all_batches_done(config, ring.results@));
    }
    Ok(BaselineReport { results: ring.results, stats: ring.stats })
}

/// The kernel pipeline and this baseline agree: two successful runs of the
/// same configuration, whichever of them each ran on (`KernelPipeline::run`,
/// `run_kernel_pipeline`, `run_baseline` with or without clocks), return the
/// same results, batch by batch and in order, and the same statistics.
pub proof fn law_pipelines_agree(
    config: PipelineConfig,
    results_a: Seq<BatchResult>,
    stats_a: Stats,
    results_b: Seq<BatchResult>,
    stats_b: Stats,
)
    requires
        completed_run(config, results_a, stats_a),
        completed_run(config, results_b, stats_b),
    ensures
        results_a == results_b,
        stats_a == stats_b,
{
    assert(results_a =~= results_b) by {
        assert forall|j: int| 0 <= j < results_a.len() implies results_a[j] == results_b[j] by {
            assert(results_a[j] == expected_result(config, j));
            assert(results_b[j] == expected_result(config, j));
        }
    }
}

} // verus!
