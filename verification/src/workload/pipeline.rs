//! The integration workload, built entirely on the kernel: every part of
//! it exercised together in one run.
//!
//! ```text
//!                 supervisor (holds full channel caps; spawns everyone)
//!                      |
//!   producer --c0--> stage 0 --c1--> ... --cN--> sink
//!      ^                                           |
//!      +------------------- return ----------------+
//! ```
//!
//! The supervisor spawns every stage with `spawn_child`, handing each only
//! a receive-only view of its input channel and a send-only view of its
//! output channel. A fixed pool of memory regions circulates around the
//! ring, every hop a `Grant::Move`, so each region always has exactly one
//! live owner. Every send and receive is stamped; no physical time is read
//! anywhere. Scheduling is `Scheduler::schedule_next` round-robin: each
//! turn, one process takes one step.
use std::collections::VecDeque;
use vstd::prelude::*;

use crate::capability::{Capability, Kernel};
use crate::ipc::{granted, ChannelRegistry, IpcError, Message};
use crate::memory::{MemoryError, RegionRegistry};
use crate::process::scheduler::spawned_child;
use crate::process::transfer::{
    delivered_as, grant_handle, leaves_table, leaving_handles, lemma_resolve_ok, moved_object, moves_bumped,
    moves_can_bump, resolve_one, resolve_spec,
};
use crate::process::{Grant, Handle, Process, ProcessError, ProcessId, Scheduler, Stamp};
use crate::rights::Rights;
use crate::workload::data::{after_stages, batch_bytes, checksum, fill_batch, transform};
use crate::workload::flow::{
    batch_range, flat, hops_left, lemma_flat_distinct, lemma_flat_distinct_rest, lemma_flat_len_update,
    lemma_flat_pop, lemma_flat_push, lemma_flat_shift, lemma_hops_nonneg, lemma_hops_update,
};
use crate::workload::schedule::{
    flow_turn, initial_counts, lens_of, schedule, schedule_stats, turn_budget, FlowCounts,
};

verus! {

broadcast use crate::rights::group_rights_bits;

#[derive(Debug, Clone, Copy)]
pub struct PipelineConfig {
    /// How many batches the producer emits.
    pub batches: u64,
    /// Bytes per memory region.
    pub region_size: usize,
    /// How many regions circulate. Fewer than `batches` means regions are
    /// reused, so ownership goes around the ring repeatedly.
    pub pool: usize,
    /// Number of transformer stages between producer and sink.
    pub stages: usize,
    /// Seed for the batch contents.
    pub seed: u64,
    /// Record a stamped trace event for every send and receive.
    pub trace: bool,
}

#[derive(Debug, Clone, Copy, PartialEq, Eq, Hash, Structural)]
pub enum Role {
    Supervisor,
    Producer,
    Transformer(usize),
    Sink,
}

#[derive(Debug, Clone, Copy, PartialEq, Eq, Hash, Structural)]
pub enum Action {
    Send,
    Receive,
}

#[derive(Debug, Clone, PartialEq, Eq)]
pub struct TraceEvent {
    pub role: Role,
    pub action: Action,
    pub batch: u64,
    pub stamp: Stamp,
}

#[derive(Debug, Clone, Copy, PartialEq, Eq, Structural)]
pub struct BatchResult {
    pub batch: u64,
    pub checksum: u64,
}

#[derive(Debug, Clone, Copy, PartialEq, Eq, Structural)]
pub struct Stats {
    /// Turns handed out by the scheduler.
    pub scheduler_turns: u64,
    /// Turns in which the process had nothing to do.
    pub idle_turns: u64,
    /// Messages sent (each one moving one region).
    pub messages: u64,
    /// Bytes read or written through region capabilities.
    pub bytes_processed: u64,
}

impl Default for Stats {
    fn default() -> (s: Stats)
        ensures
            s == (Stats { scheduler_turns: 0, idle_turns: 0, messages: 0, bytes_processed: 0 }),
    {
        Stats { scheduler_turns: 0, idle_turns: 0, messages: 0, bytes_processed: 0 }
    }
}

#[derive(Debug, Clone)]
pub struct PipelineReport {
    /// In the order the sink finished them.
    pub results: Vec<BatchResult>,
    pub trace: Vec<TraceEvent>,
    pub stats: Stats,
}

#[derive(Debug, Clone, Copy, PartialEq, Eq, Structural)]
pub enum PipelineError {
    Ipc(IpcError),
    Memory(MemoryError),
    Process(ProcessError),
    /// A message arrived without the region it should carry.
    MissingRegion,
    /// No process made progress for a full round after `turns` turns.
    Stalled { turns: u64 },
}

/// What batch `j` must finish as.
pub open spec fn expected_result(config: PipelineConfig, j: int) -> BatchResult {
    BatchResult {
        batch: j as u64,
        checksum: crate::workload::data::reference_spec(
            config.seed,
            j as u64,
            config.region_size,
            config.stages,
        ),
    }
}

/// `results` lists every batch once, in order, each with its reference
/// checksum.
pub open spec fn all_batches_done(config: PipelineConfig, results: Seq<BatchResult>) -> bool {
    &&& results.len() == config.batches
    &&& forall|j: int| 0 <= j < results.len() ==> #[trigger] results[j] == expected_result(config, j)
}

/// What a successful run of `config` returns, on the kernel or on the
/// baseline: every batch once, in order, with its reference checksum; one
/// message per hop, with its bytes; and the turns of the round-robin
/// schedule.
pub open spec fn completed_run(config: PipelineConfig, results: Seq<BatchResult>, stats: Stats) -> bool {
    &&& all_batches_done(config, results)
    &&& stats.messages == config.batches * (config.stages + 2)
    &&& stats.bytes_processed == config.batches * (config.stages + 2) * config.region_size
    &&& stats.scheduler_turns == schedule_stats(config).0
    &&& stats.idle_turns == schedule_stats(config).1
    &&& stats.idle_turns <= stats.scheduler_turns
}

/// The first `n` channels' queues.
pub open spec fn channel_queues(q: Map<u64, Seq<Message>>, n: int) -> Seq<Seq<Message>> {
    Seq::new(n as nat, |k: int| q[k as u64])
}

/// The ids of the objects `t` holds under `hs`.
pub open spec fn ids_under(hs: Seq<Handle>, t: Map<u32, Capability>) -> Seq<u64> {
    hs.map_values(|h: Handle| t[h.0].object().id())
}

pub open spec fn ids_below(n: int) -> Set<u64> {
    Set::new(|id: u64| id < n)
}

pub open spec fn handles_below(n: int) -> Set<u32> {
    Set::new(|h: u32| h < n)
}

/// The region objects' ids: those allocated after the channels.
pub open spec fn region_ids(cfg: PipelineConfig) -> Set<u64> {
    Set::new(|id: u64| cfg.stages + 2 <= id < cfg.stages + 2 + cfg.pool)
}

/// The producer's handles: its two views and its free regions.
pub open spec fn producer_handles(free: Seq<Handle>) -> Set<u32> {
    Set::new(|h: u32| h < 2 || free.contains(Handle(h)))
}

/// The position of each role in spawn order, which is scheduling order,
/// with `n` transformers: supervisor, sink, transformers downstream first,
/// producer.
pub open spec fn role_at(s: int, n: int) -> Role {
    if s == 0 {
        Role::Supervisor
    } else if s == 1 {
        Role::Sink
    } else if s <= n + 1 {
        Role::Transformer((n + 1 - s) as usize)
    } else {
        Role::Producer
    }
}

/// The rights every channel and region is created with.
pub open spec fn full_rights() -> Rights {
    Rights::from_bits(27)
}

/// The round-robin queue of `p` processes with `t` at the front.
pub open spec fn rotated(p: int, t: int) -> Seq<ProcessId> {
    Seq::new(p as nat, |j: int| ProcessId((if t + j < p { t + j } else { t + j - p }) as u64))
}

/// The worst case of every counter of a run fits its type: the turns, the
/// bytes touched, each process's handles and every object's epoch.
pub open spec fn pipeline_fits(cfg: PipelineConfig) -> bool {
    let b = cfg.batches as int;
    let s = cfg.stages as int;
    &&& s + 4 <= usize::MAX
    &&& s + 3 + cfg.pool < usize::MAX
    &&& (2 * b * (s + 2) + s + 4) * (s + 4) <= u64::MAX
    &&& b * (s + 2) * cfg.region_size <= u64::MAX
    &&& cfg.pool + s + b + 4 < u32::MAX
}

/// Decides `pipeline_fits`, so a caller can test a configuration before
/// running it.
pub fn config_fits(config: &PipelineConfig) -> (r: bool)
    ensures
        r == pipeline_fits(*config),
{
    let b = config.batches as u128;
    let s = config.stages as u128;
    let pool = config.pool as u128;
    let size = config.region_size as u128;
    if s + 4 > usize::MAX as u128 || s + 3 + pool >= usize::MAX as u128 || pool + s + b + 4 >= u32::MAX as u128 {
        return false;
    }
    assert(2 * b * (s + 2) + s + 4 < 0x1_0000_0000_0000_0000_0000) by (nonlinear_arith)
        requires
            b < 0x1_0000_0000,
            s < 0x1_0000_0000,
    ;
    let x = 2 * b * (s + 2) + s + 4;
    assert(x * (s + 4) < 0x100_0000_0000_0000_0000_0000_0000_0000) by (nonlinear_arith)
        requires
            x < 0x1_0000_0000_0000_0000_0000,
            s < 0x1_0000_0000,
    ;
    assert(b * (s + 2) < 0x1_0000_0000_0000_0000) by (nonlinear_arith)
        requires
            b < 0x1_0000_0000,
            s < 0x1_0000_0000,
    ;
    let turns = x * (s + 4);
    if turns > u64::MAX as u128 {
        return false;
    }
    match (b * (s + 2)).checked_mul(size) {
        None => {
            assert(b * (s + 2) * size > u64::MAX);
            false
        },
        Some(bytes) => bytes <= u64::MAX as u128,
    }
}

/// The batch a message carries.
pub open spec fn msg_batch(m: Message) -> u64 {
    m.data as u64
}

/// The id of the region a message carries.
pub open spec fn msg_region(m: Message) -> u64 {
    m.capabilities@[0].object().id()
}

pub open spec fn batch_fn() -> spec_fn(Message) -> u64 {
    |m: Message| msg_batch(m)
}

pub open spec fn region_fn() -> spec_fn(Message) -> u64 {
    |m: Message| msg_region(m)
}

/// A view of channel `id` with exactly `rights`.
pub open spec fn view_of(c: Capability, id: int, rights: Rights) -> bool {
    &&& c.object().id() == id
    &&& c.rights() == rights
    &&& c.epoch() == 0
}

struct Stage {
    pid: ProcessId,
    role: Role,
    /// Receive-only view of this stage's input channel.
    input: Option<Handle>,
    /// Send-only view of this stage's output channel.
    output: Option<Handle>,
    /// Producer only: regions it owns and is not using, oldest first, so the
    /// whole pool rotates.
    free_regions: VecDeque<Handle>,
    /// Producer only: the next batch number to emit.
    next_batch: u64,
}

/// The stage at position `s` has the handles its role needs: the input view
/// under handle 0 and the output view under 1, the producer the other way
/// round.
spec fn stage_shape(st: Stage, s: int, n: int) -> bool {
    &&& st.pid == ProcessId(s as u64)
    &&& st.role == role_at(s, n)
    &&& s == 0 ==> st.input is None && st.output is None
    &&& 1 <= s <= n + 1 ==> st.input == Some(Handle(0)) && st.output == Some(Handle(1))
    &&& s == n + 2 ==> st.input == Some(Handle(1)) && st.output == Some(Handle(0))
}

pub struct KernelPipeline {
    config: PipelineConfig,
    kernel: Kernel,
    sched: Scheduler,
    channels: ChannelRegistry,
    memory: RegionRegistry,
    stages: Vec<Stage>,
}

impl KernelPipeline {
    pub closed spec fn config_spec(&self) -> PipelineConfig {
        self.config
    }

    pub closed spec fn kernel_spec(&self) -> Kernel {
        self.kernel
    }

    pub closed spec fn sched_spec(&self) -> Scheduler {
        self.sched
    }

    pub closed spec fn memory_spec(&self) -> RegionRegistry {
        self.memory
    }

    spec fn n(&self) -> int {
        self.config.stages as int
    }

    /// The queue of channel `k`: `k` feeds transformer `k`, `n` the sink.
    spec fn qs(&self) -> Seq<Seq<Message>> {
        channel_queues(self.channels.queues(), self.n() + 1)
    }

    /// The queue of the return channel.
    spec fn ret(&self) -> Seq<Message> {
        self.channels.queues()[(self.n() + 1) as u64]
    }

    spec fn table_at(&self, s: int) -> Map<u32, Capability> {
        self.sched.procs()[s].table()
    }

    spec fn producer_stage(&self) -> Stage {
        self.stages@[self.n() + 2]
    }

    spec fn free(&self) -> Seq<Handle> {
        self.producer_stage().free_regions@
    }

    spec fn free_ids(&self) -> Seq<u64> {
        ids_under(self.free(), self.table_at(self.n() + 2))
    }

    spec fn next_batch(&self) -> u64 {
        self.producer_stage().next_batch
    }

    /// Every region's id, wherever it is: in a channel, free at the
    /// producer, or on its way back.
    spec fn all_regions(&self) -> Seq<u64> {
        flat(self.qs(), (self.n() + 1) as nat, region_fn()) + self.free_ids() + self.ret().map_values(
            region_fn(),
        )
    }

    spec fn is_region(&self, id: int) -> bool {
        self.n() + 2 <= id < self.n() + 2 + self.config.pool
    }

    /// Sends still owed before every batch has come back.
    spec fn psi(&self) -> int {
        (self.config.batches - self.next_batch()) * (self.n() + 2) + hops_left(
            self.qs(),
            (self.n() + 1) as nat,
            self.n() + 1,
        )
    }

    /// What every turn that does something decreases.
    spec fn phi(&self) -> int {
        2 * self.psi() + self.ret().len()
    }

    /// No clock, and no stamp in flight, is later than this.
    spec fn bound(&self, done: int, stats: Stats) -> int {
        self.n() + 3 + 2 * stats.messages + done - self.ret().len()
    }

    spec fn live_region(&self, c: Capability) -> bool {
        let id = c.object().id();
        &&& self.is_region(id as int)
        &&& c.rights() == full_rights()
        &&& self.kernel.epochs().contains_key(id)
        &&& self.kernel.epochs()[id] == c.epoch()
    }

    spec fn msg_ok(&self, m: Message, e: int) -> bool {
        &&& m.capabilities@.len() == 1
        &&& self.live_region(m.capabilities@[0])
        &&& m.stamp.lamport() <= e
    }

    /// The region a message in channel `k` carries holds its batch after
    /// stages `0..k`.
    spec fn carried(&self, m: Message, k: int) -> bool {
        self.memory.regions()[msg_region(m)] == after_stages(
            batch_bytes(self.config.seed, msg_batch(m), self.config.region_size as nat),
            k as nat,
        )
    }

    spec fn inv_shape(&self) -> bool {
        let n = self.n();
        &&& pipeline_fits(self.config)
        &&& self.stages@.len() == n + 3
        &&& forall|s: int| 0 <= s < n + 3 ==> #[trigger] stage_shape(self.stages@[s], s, n)
        &&& self.sched.wf()
        &&& self.sched.procs().len() == n + 3
        &&& self.kernel.wf()
        &&& self.kernel.next_id() == n + 2 + self.config.pool
        &&& forall|id: u64| #[trigger]
            self.kernel.epochs().contains_key(id) <==> id < n + 2 + self.config.pool
        &&& forall|id: u64| id < n + 2 ==> #[trigger] self.kernel.epochs()[id] == 0
        &&& self.channels.queues().dom() == ids_below(n + 2)
        &&& self.memory.wf()
        &&& self.memory.regions().dom() == region_ids(self.config)
    }

    spec fn inv_tables(&self, done: int, stats: Stats) -> bool {
        let n = self.n();
        let e = self.bound(done, stats);
        let pt = self.table_at(n + 2);
        &&& forall|s: int|
            1 <= s <= n + 1 ==> (#[trigger] self.table_at(s)).dom() == handles_below(2)
        &&& view_of(self.table_at(1)[0], n, Rights::READ())
        &&& view_of(self.table_at(1)[1], n + 1, Rights::WRITE())
        &&& self.sched.procs()[1].next_handle() == 2 + done
        &&& forall|i: int|
            0 <= i < n ==> {
                &&& view_of(#[trigger] self.table_at(n + 1 - i)[0], i, Rights::READ())
                &&& view_of(self.table_at(n + 1 - i)[1], i + 1, Rights::WRITE())
                &&& self.sched.procs()[n + 1 - i].next_handle() == 2 + self.next_batch() - flat(
                    self.qs(),
                    (i + 1) as nat,
                    batch_fn(),
                ).len()
            }
        &&& pt.dom() == producer_handles(self.free())
        &&& view_of(pt[0], 0, Rights::WRITE())
        &&& view_of(pt[1], n + 1, Rights::READ())
        &&& self.free().no_duplicates()
        &&& forall|j: int| 0 <= j < self.free().len() ==> (#[trigger] self.free()[j]).0 >= 2
        &&& forall|j: int| 0 <= j < self.free().len() ==> self.live_region(pt[(#[trigger] self.free()[j]).0])
        &&& self.sched.procs()[n + 2].next_handle() == self.config.pool + 2 + done - self.ret().len()
        &&& forall|s: int| 0 <= s < n + 3 ==> (#[trigger] self.sched.procs()[s]).clock_state().time() <= e
    }

    spec fn inv_flow(&self, done: int, stats: Stats) -> bool {
        let n = self.n();
        let e = self.bound(done, stats);
        let q = self.qs();
        let rs = self.config.region_size;
        &&& self.next_batch() <= self.config.batches
        &&& 0 <= done <= self.next_batch()
        &&& flat(q, (n + 1) as nat, batch_fn()) == batch_range(done, self.next_batch() as int)
        &&& forall|k: int, j: int|
            0 <= k <= n && 0 <= j < q[k].len() ==> self.msg_ok(#[trigger] q[k][j], e) && self.carried(q[k][j], k)
        &&& forall|j: int|
            0 <= j < self.ret().len() ==> self.msg_ok(#[trigger] self.ret()[j], e)
                && self.memory.regions()[msg_region(self.ret()[j])].len() == rs
        &&& forall|j: int|
            0 <= j < self.free().len() ==> self.memory.regions()[#[trigger] self.free_ids()[j]].len() == rs
        &&& self.all_regions().no_duplicates()
        &&& self.all_regions().len() == self.config.pool
        &&& forall|id: u64| self.is_region(id as int) ==> #[trigger] self.kernel.epochs()[id] <= stats.messages + 1
        &&& stats.messages + self.psi() == self.config.batches * (n + 2)
        &&& stats.bytes_processed == stats.messages * rs
        &&& self.ret().len() <= done <= stats.messages
    }

    /// The state between turns of a run that has finished `done` batches
    /// with statistics `stats`.
    spec fn inv(&self, done: int, stats: Stats) -> bool {
        &&& self.inv_shape()
        &&& self.inv_tables(done, stats)
        &&& self.inv_flow(done, stats)
    }

    /// As `new` leaves it: nothing sent yet, and the supervisor first in line.
    pub closed spec fn fresh(&self) -> bool {
        &&& self.inv(0, Stats { scheduler_turns: 0, idle_turns: 0, messages: 0, bytes_processed: 0 })
        &&& self.next_batch() == 0
        &&& self.sched.ready() == rotated(self.n() + 3, 0)
    }
}

/// `r` lists the handles of `t` in increasing order.
pub open spec fn sorted_exactly(r: Seq<Handle>, t: Map<u32, Capability>) -> bool {
    &&& forall|i: int, j: int| 0 <= i < j < r.len() ==> (#[trigger] r[i]).0 < (#[trigger] r[j]).0
    &&& forall|i: int| 0 <= i < r.len() ==> t.contains_key((#[trigger] r[i]).0)
    &&& forall|h: u32| #[trigger] t.contains_key(h) ==> exists|i: int| 0 <= i < r.len() && (#[trigger] r[i]).0 == h
}

/// The handles of a table holding exactly handles `0..n` are `0..n`.
proof fn lemma_sorted_prefix(r: Seq<Handle>, t: Map<u32, Capability>, n: nat)
    requires
        sorted_exactly(r, t),
        t.dom() == Set::new(|h: u32| h < n),
        n <= u32::MAX,
    ensures
        r.len() == n,
        forall|i: int| 0 <= i < n ==> (#[trigger] r[i]).0 == i,
    decreases n,
{
    if n == 0 {
        if r.len() > 0 {
            assert(t.contains_key(r[0].0));
        }
    } else {
        let top = (n - 1) as u32;
        assert(t.contains_key(top));
        let i = choose|i: int| 0 <= i < r.len() && (#[trigger] r[i]).0 == top;
        if i < r.len() - 1 {
            assert(t.contains_key(r[r.len() - 1].0));
            assert(r[i].0 < r[r.len() - 1].0);
        }
        let r2 = r.drop_last();
        let t2 = t.remove(top);
        assert(t2.dom() =~= Set::new(|h: u32| h < n - 1));
        assert forall|k: int| 0 <= k < r2.len() implies t2.contains_key((#[trigger] r2[k]).0) by {
            assert(r2[k] == r[k]);
            assert(r[k].0 < r[r.len() - 1].0);
        }
        assert forall|h: u32| #[trigger] t2.contains_key(h) implies exists|k: int|
            0 <= k < r2.len() && (#[trigger] r2[k]).0 == h by {
            assert(t.contains_key(h));
            let k = choose|k: int| 0 <= k < r.len() && (#[trigger] r[k]).0 == h;
            assert(k != r.len() - 1);
            assert(r2[k] == r[k]);
        }
        assert forall|a: int, b: int| 0 <= a < b < r2.len() implies (#[trigger] r2[a]).0 < (#[trigger] r2[b]).0 by {
            assert(r2[a] == r[a] && r2[b] == r[b]);
        }
        lemma_sorted_prefix(r2, t2, (n - 1) as nat);
        assert forall|k: int| 0 <= k < n implies (#[trigger] r[k]).0 == k by {
            if k < n - 1 {
                assert(r[k] == r2[k]);
            }
        }
    }
}

/// Process `pid`'s handles, in increasing order.
fn sorted_handles(sched: &Scheduler, pid: ProcessId) -> (r: Vec<Handle>)
    requires
        sched.wf(),
        pid.0 < sched.procs().len(),
    ensures
        sorted_exactly(r@, sched.procs()[pid.0 as int].table()),
{
    proof {
        sched.lemma_wf();
    }
    let p = sched.process(pid).expect("spawned");
    p.handles()
}

/// The capability process `pid` holds under `handle`.
fn cap_of(sched: &Scheduler, pid: ProcessId, handle: Handle) -> (c: Capability)
    requires
        sched.wf(),
        pid.0 < sched.procs().len(),
        sched.procs()[pid.0 as int].table().contains_key(handle.0),
    ensures
        c == sched.procs()[pid.0 as int].table()[handle.0],
{
    sched.process(pid).expect("stage process exists").capability(handle).expect(
        "a stage only ever uses handles it holds",
    )
}

/// Grants every capability of `caps` to `p`, in order, answering the
/// handles.
fn grant_all(p: &mut Process, caps: &Vec<Capability>) -> (hs: Vec<Handle>)
    requires
        old(p).wf(),
        old(p).next_handle() + caps.len() < u32::MAX,
    ensures
        final(p).wf(),
        hs.len() == caps.len(),
        forall|i: int| 0 <= i < hs.len() ==> (#[trigger] hs@[i]).0 == old(p).next_handle() + i,
        final(p).table() == granted(old(p).table(), old(p).next_handle(), caps@),
        final(p).next_handle() == old(p).next_handle() + caps.len(),
        final(p).id() == old(p).id(),
        final(p).clock_state() == old(p).clock_state(),
{
    let ghost t0 = p.table();
    let ghost n0 = p.next_handle();
    let mut hs: Vec<Handle> = Vec::new();
    let mut i: usize = 0;
    proof {
        assert(p.table() =~= granted(t0, n0, caps@.take(0)));
    }
    while i < caps.len()
        invariant
            0 <= i <= caps.len(),
            n0 + caps.len() < u32::MAX,
            p.wf(),
            p.next_handle() == n0 + i,
            p.table() == granted(t0, n0, caps@.take(i as int)),
            p.id() == old(p).id(),
            p.clock_state() == old(p).clock_state(),
            hs.len() == i,
            forall|j: int| 0 <= j < i ==> (#[trigger] hs@[j]).0 == n0 + j,
        decreases caps.len() - i,
    {
        let h = p.grant(caps[i]);
        hs.push(h);
        i = i + 1;
        proof {
            assert(p.table() =~= granted(t0, n0, caps@.take(i as int)));
        }
    }
    proof {
        assert(caps@.take(caps.len() as int) =~= caps@);
    }
    hs
}

/// `t` holds, under `h`, a full capability for a live object still on its
/// first epoch.
spec fn full_cap_at(k: Kernel, t: Map<u32, Capability>, h: Handle) -> bool {
    &&& t.contains_key(h.0)
    &&& t[h.0].rights() == full_rights()
    &&& t[h.0].epoch() == 0
    &&& k.epochs().contains_key(t[h.0].object().id())
    &&& k.epochs()[t[h.0].object().id()] == 0
}

proof fn lemma_full_rights_contain()
    ensures
        full_rights().contains(Rights::READ()),
        full_rights().contains(Rights::WRITE()),
        full_rights().contains(Rights::GRANT()),
        full_rights().contains(Rights::DESTROY()),
        crate::rights::bits_contain(27, 1),
        crate::rights::bits_contain(27, 2),
        crate::rights::bits_contain(27, 8),
        crate::rights::bits_contain(27, 16),
{
    assert(27u32 & 1u32 == 1u32) by (bit_vector);
    assert(27u32 & 2u32 == 2u32) by (bit_vector);
    assert(27u32 & 8u32 == 8u32) by (bit_vector);
    assert(27u32 & 16u32 == 16u32) by (bit_vector);
    assert(full_rights().bits() == 27);
    assert(Rights::spec_READ().bits() == 1 && Rights::spec_WRITE().bits() == 2);
    assert(Rights::spec_GRANT().bits() == 8 && Rights::spec_DESTROY().bits() == 16);
}

/// A batch of grants none of which moves anything leaves every epoch as it
/// was.
proof fn lemma_no_moves(before: Map<u64, u64>, after: Map<u64, u64>, grants: Seq<Grant>, resolved: Seq<Capability>)
    requires
        moves_bumped(before, after, grants, resolved),
        forall|i: int| 0 <= i < grants.len() ==> !(#[trigger] grants[i] is Move),
    ensures
        after == before,
{
    assert forall|id: u64| #[trigger] after.contains_key(id) implies after[id] == before[id] by {
        if moved_object(grants, resolved, id) {
            let i = choose|i: int| 0 <= i < grants.len() && (#[trigger] grants[i]) is Move && resolved[i].object().id() == id;
        }
    }
    assert(after =~= before);
}

/// Spawns a stage from the supervisor, process 0, holding a receive-only
/// view of the channel the supervisor holds under `input`, as handle 0, and
/// a send-only view of the one under `output`, as handle 1.
fn spawn_stage(
    kernel: &mut Kernel,
    sched: &mut Scheduler,
    supervisor: ProcessId,
    input: Handle,
    output: Handle,
) -> (r: Result<(ProcessId, Vec<Handle>), PipelineError>)
    requires
        old(sched).wf(),
        old(kernel).wf(),
        supervisor == ProcessId(0),
        old(sched).procs().len() > 0,
        old(sched).next_pid() < u64::MAX,
        old(sched).procs()[0].clock_state().time() < u64::MAX - 1,
        full_cap_at(*old(kernel), old(sched).procs()[0].table(), input),
        full_cap_at(*old(kernel), old(sched).procs()[0].table(), output),
    ensures
        r is Ok,
        r matches Ok((pid, hs)) ==> {
            let sp = old(sched).procs()[0];
            let np = final(sched).procs()[0];
            let c = final(sched).procs().last();
            let t = sp.table();
            &&& pid == ProcessId(old(sched).next_pid())
            &&& hs@.len() == 2
            &&& hs@[0] == Handle(0)
            &&& hs@[1] == Handle(1)
            &&& final(kernel).wf()
            &&& final(kernel).epochs() == old(kernel).epochs()
            &&& final(kernel).next_id() == old(kernel).next_id()
            &&& final(sched).wf()
            &&& final(sched).next_pid() == old(sched).next_pid() + 1
            &&& final(sched).procs().len() == old(sched).procs().len() + 1
            &&& final(sched).procs().drop_last() == old(sched).procs().update(0, np)
            &&& final(sched).ready() == old(sched).ready().push(pid)
            &&& np.table() == t
            &&& np.next_handle() == sp.next_handle()
            &&& np.clock_state().time() == sp.clock_state().time() + 1
            &&& c.table().dom() == Set::new(|h: u32| h < 2)
            &&& view_of(c.table()[0], t[input.0].object().id() as int, Rights::READ())
            &&& view_of(c.table()[1], t[output.0].object().id() as int, Rights::WRITE())
            &&& c.next_handle() == 2
            &&& c.clock_state().time() == sp.clock_state().time() + 2
        },
{
    let grants = vec![Grant::Derive(input, Rights::READ()), Grant::Derive(output, Rights::WRITE())];
    let ghost t = sched.procs()[0].table();
    let ghost caps = seq![t[input.0].with_rights(Rights::READ()), t[output.0].with_rights(Rights::WRITE())];
    proof {
        lemma_full_rights_contain();
        assert(resolve_one(*kernel, t, grants@[0]) == Ok::<Capability, crate::process::GrantError>(caps[0]));
        assert(resolve_one(*kernel, t, grants@[1]) == Ok::<Capability, crate::process::GrantError>(caps[1]));
        lemma_resolve_ok(*kernel, t, grants@, caps);
        assert(moves_can_bump(*kernel, t, grants@));
    }
    let pid = match sched.spawn_child(kernel, supervisor, grants) {
        Ok(pid) => pid,
        Err(e) => {
            return Err(PipelineError::Process(e));
        },
    };
    proof {
        sched.lemma_wf();
        lemma_no_moves(old(kernel).epochs(), kernel.epochs(), grants@, caps);
        let sp = old(sched).procs()[0];
        let np = sched.procs()[0];
        assert(leaving_handles(grants@) =~= Set::<u32>::empty());
        assert(np.table() =~= sp.table());
        let c = sched.procs().last();
        assert(delivered_as(grants@[0], caps[0], c.table()[0]));
        assert(delivered_as(grants@[1], caps[1], c.table()[1]));
        assert(sched.procs()[pid.0 as int] == c);
        assert(c.table().dom() =~= Set::new(|h: u32| h < 2));
        t[input.0].lemma_with_rights(Rights::READ());
        t[output.0].lemma_with_rights(Rights::WRITE());
    }
    let hs = sorted_handles(sched, pid);
    proof {
        lemma_sorted_prefix(hs@, sched.procs()[pid.0 as int].table(), 2);
    }
    Ok((pid, hs))
}

/// Spawns the producer from the supervisor, process 0: a send-only view of
/// the channel under `output` (handle 0), a receive-only view of the one
/// under `input` (handle 1), and every region under `regions`, moved (handles
/// 2 on).
fn spawn_producer(
    kernel: &mut Kernel,
    sched: &mut Scheduler,
    supervisor: ProcessId,
    output: Handle,
    input: Handle,
    regions: &Vec<Handle>,
) -> (r: Result<(ProcessId, Vec<Handle>), PipelineError>)
    requires
        old(sched).wf(),
        old(kernel).wf(),
        supervisor == ProcessId(0),
        old(sched).procs().len() > 0,
        old(sched).next_pid() < u64::MAX,
        old(sched).procs()[0].clock_state().time() < u64::MAX - 1,
        regions.len() + 2 < u32::MAX,
        full_cap_at(*old(kernel), old(sched).procs()[0].table(), output),
        full_cap_at(*old(kernel), old(sched).procs()[0].table(), input),
        forall|j: int|
            0 <= j < regions.len() ==> full_cap_at(
                *old(kernel),
                old(sched).procs()[0].table(),
                #[trigger] regions@[j],
            ),
        ({
            let t = old(sched).procs()[0].table();
            let ids = Seq::new((regions.len() + 2) as nat, |j: int| if j == 0 {
                t[output.0].object().id()
            } else if j == 1 {
                t[input.0].object().id()
            } else {
                t[regions@[j - 2].0].object().id()
            });
            ids.no_duplicates()
        }),
    ensures
        r is Ok,
        r matches Ok((pid, hs)) ==> {
            let sp = old(sched).procs()[0];
            let np = final(sched).procs()[0];
            let c = final(sched).procs().last();
            let t = sp.table();
            &&& pid == ProcessId(old(sched).next_pid())
            &&& hs@.len() == regions.len() + 2
            &&& forall|j: int| 0 <= j < hs@.len() ==> (#[trigger] hs@[j]).0 == j
            &&& final(kernel).wf()
            &&& final(kernel).next_id() == old(kernel).next_id()
            &&& final(kernel).epochs().dom() == old(kernel).epochs().dom()
            &&& forall|id: u64| #[trigger] final(kernel).epochs().contains_key(id) ==> final(kernel).epochs()[id] == (
                if exists|j: int| 0 <= j < regions.len() && t[(#[trigger] regions@[j]).0].object().id() == id {
                    old(kernel).epochs()[id] + 1
                } else {
                    old(kernel).epochs()[id] as int
                })
            &&& final(sched).wf()
            &&& final(sched).next_pid() == old(sched).next_pid() + 1
            &&& final(sched).procs().len() == old(sched).procs().len() + 1
            &&& final(sched).procs().drop_last() == old(sched).procs().update(0, np)
            &&& final(sched).ready() == old(sched).ready().push(pid)
            &&& np.next_handle() == sp.next_handle()
            &&& np.clock_state().time() == sp.clock_state().time() + 1
            &&& forall|h: u32| #[trigger] np.table().contains_key(h) <==> (t.contains_key(h) && forall|j: int|
                0 <= j < regions.len() ==> regions@[j].0 != h)
            &&& c.table().dom() == Set::new(|h: u32| h < regions.len() + 2)
            &&& view_of(c.table()[0], t[output.0].object().id() as int, Rights::WRITE())
            &&& view_of(c.table()[1], t[input.0].object().id() as int, Rights::READ())
            &&& forall|j: int|
                0 <= j < regions.len() ==> {
                    let d = #[trigger] c.table()[(j + 2) as u32];
                    let o = t[regions@[j].0];
                    &&& d.object() == o.object()
                    &&& d.rights() == o.rights()
                    &&& d.epoch() == o.epoch() + 1
                }
            &&& c.next_handle() == regions.len() + 2
            &&& c.clock_state().time() == sp.clock_state().time() + 2
        },
{
    let mut grants = vec![Grant::Derive(output, Rights::WRITE()), Grant::Derive(input, Rights::READ())];
    let mut j: usize = 0;
    while j < regions.len()
        invariant
            0 <= j <= regions.len(),
            grants@.len() == j + 2,
            grants@[0] == Grant::Derive(output, Rights::WRITE()),
            grants@[1] == Grant::Derive(input, Rights::READ()),
            forall|i: int| 0 <= i < j ==> #[trigger] grants@[i + 2] == Grant::Move(regions@[i]),
        decreases regions.len() - j,
    {
        grants.push(Grant::Move(regions[j]));
        j = j + 1;
    }
    let ghost t = sched.procs()[0].table();
    let ghost caps = Seq::new(grants@.len(), |i: int| if i == 0 {
        t[output.0].with_rights(Rights::WRITE())
    } else if i == 1 {
        t[input.0].with_rights(Rights::READ())
    } else {
        t[regions@[i - 2].0]
    });
    let ghost ids = Seq::new((regions.len() + 2) as nat, |j: int| if j == 0 {
        t[output.0].object().id()
    } else if j == 1 {
        t[input.0].object().id()
    } else {
        t[regions@[j - 2].0].object().id()
    });
    proof {
        lemma_full_rights_contain();
        t[output.0].lemma_with_rights(Rights::WRITE());
        t[input.0].lemma_with_rights(Rights::READ());
        assert forall|i: int| 0 <= i < grants@.len() implies resolve_one(*kernel, t, #[trigger] grants@[i])
            == Ok::<Capability, crate::process::GrantError>(caps[i]) by {
            if i >= 2 {
                assert(grants@[(i - 2) + 2] == Grant::Move(regions@[i - 2]));
                assert(full_cap_at(*kernel, t, regions@[i - 2]));
            }
        }
        assert forall|a: int, b: int|
            0 <= b < a < grants@.len() && leaves_table(#[trigger] grants@[a]) && leaves_table(
                #[trigger] grants@[b],
            ) implies grant_handle(grants@[a]) != grant_handle(grants@[b]) by {
            assert(grants@[(a - 2) + 2] == Grant::Move(regions@[a - 2]));
            assert(grants@[(b - 2) + 2] == Grant::Move(regions@[b - 2]));
            assert(ids[a] != ids[b]);
        }
        assert forall|a: int, b: int|
            0 <= a < grants@.len() && 0 <= b < grants@.len() && a != b && (#[trigger] grants@[a]) is Move
                implies (#[trigger] caps[b]).object() != caps[a].object() by {
            assert(ids[a] != ids[b]);
            assert(caps[a].object().id() == ids[a]);
            assert(caps[b].object().id() == ids[b]);
        }
        lemma_resolve_ok(*kernel, t, grants@, caps);
        assert forall|i: int|
            0 <= i < grants@.len() && (#[trigger] grants@[i]) is Move && t.contains_key(
                grant_handle(grants@[i]).0,
            ) implies kernel.can_bump(t[grant_handle(grants@[i]).0].object()) by {
            assert(grants@[(i - 2) + 2] == Grant::Move(regions@[i - 2]));
            assert(full_cap_at(*kernel, t, regions@[i - 2]));
        }
    }
    let pid = match sched.spawn_child(kernel, supervisor, grants) {
        Ok(pid) => pid,
        Err(e) => {
            return Err(PipelineError::Process(e));
        },
    };
    proof {
        sched.lemma_wf();
        let c = sched.procs().last();
        assert(sched.procs()[pid.0 as int] == c);
        assert(c.table().dom() =~= Set::new(|h: u32| h < regions.len() + 2));
        assert forall|h: u32| #[trigger] sched.procs()[0].table().contains_key(h) <==> (t.contains_key(h)
            && forall|j: int| 0 <= j < regions.len() ==> regions@[j].0 != h) by {
            if exists|j: int| 0 <= j < regions.len() && regions@[j].0 == h {
                let j = choose|j: int| 0 <= j < regions.len() && regions@[j].0 == h;
                assert(grants@[j + 2] == Grant::Move(regions@[j]));
                assert(leaving_handles(grants@).contains(h));
            } else {
                if leaving_handles(grants@).contains(h) {
                    let i = choose|i: int| 0 <= i < grants@.len() && leaves_table(#[trigger] grants@[i]) && grant_handle(grants@[i]).0 == h;
                    assert(grants@[(i - 2) + 2] == Grant::Move(regions@[i - 2]));
                }
            }
        }
        assert(delivered_as(grants@[0], caps[0], c.table()[0]));
        assert(delivered_as(grants@[1], caps[1], c.table()[1]));
        assert forall|j: int| 0 <= j < regions.len() implies {
            let d = #[trigger] c.table()[(j + 2) as u32];
            let o = t[regions@[j].0];
            &&& d.object() == o.object()
            &&& d.rights() == o.rights()
            &&& d.epoch() == o.epoch() + 1
        } by {
            assert(grants@[j + 2] == Grant::Move(regions@[j]));
            assert(delivered_as(grants@[j + 2], caps[j + 2], c.table()[(j + 2) as u32]));
        }
        assert forall|id: u64| #[trigger] kernel.epochs().contains_key(id) implies kernel.epochs()[id] == (
            if exists|j: int| 0 <= j < regions.len() && t[(#[trigger] regions@[j]).0].object().id() == id {
                old(kernel).epochs()[id] + 1
            } else {
                old(kernel).epochs()[id] as int
            }) by {
            if exists|j: int| 0 <= j < regions.len() && t[(#[trigger] regions@[j]).0].object().id() == id {
                let j = choose|j: int| 0 <= j < regions.len() && t[(#[trigger] regions@[j]).0].object().id() == id;
                assert(grants@[j + 2] == Grant::Move(regions@[j]));
                assert(caps[j + 2].object().id() == id);
                assert(moved_object(grants@, caps, id));
            } else {
                if moved_object(grants@, caps, id) {
                    let i = choose|i: int| 0 <= i < grants@.len() && (#[trigger] grants@[i]) is Move && caps[i].object().id() == id;
                    assert(grants@[(i - 2) + 2] == Grant::Move(regions@[i - 2]));
                    assert(t[regions@[i - 2].0].object().id() == id);
                }
            }
        }
    }
    let hs = sorted_handles(sched, pid);
    proof {
        lemma_sorted_prefix(hs@, sched.procs()[pid.0 as int].table(), (regions.len() + 2) as nat);
    }
    Ok((pid, hs))
}

/// The supervisor's table once it holds every channel and region: handle
/// `h` names object `h`, with full rights, on its first epoch.
spec fn supervisor_table_ok(t: Map<u32, Capability>, total: int) -> bool {
    &&& forall|h: u32| #[trigger] t.contains_key(h) <==> h < total
    &&& forall|h: u32|
        h < total ==> (#[trigger] t[h]).object().id() == h && t[h].rights() == full_rights() && t[h].epoch()
            == 0
}

/// The stages spawned so far, `1..m`: each holds exactly its two views and
/// has made at most `n + 3` events.
spec fn stages_spawned(sched: Scheduler, stages: Seq<Stage>, m: int, n: int) -> bool {
    &&& stages.len() == m
    &&& forall|k: int| 0 <= k < m ==> #[trigger] stage_shape(stages[k], k, n)
    &&& forall|k: int|
        1 <= k < m ==> {
            &&& (#[trigger] sched.procs()[k]).table().dom() == Set::new(|h: u32| h < 2)
            &&& sched.procs()[k].next_handle() == 2
            &&& sched.procs()[k].clock_state().time() <= n + 3
        }
    &&& m > 1 ==> view_of(sched.procs()[1].table()[0], n, Rights::READ()) && view_of(
        sched.procs()[1].table()[1],
        n + 1,
        Rights::WRITE(),
    )
    &&& forall|k: int|
        2 <= k < m ==> view_of(#[trigger] sched.procs()[k].table()[0], n + 1 - k, Rights::READ())
            && view_of(sched.procs()[k].table()[1], n + 2 - k, Rights::WRITE())
}

impl KernelPipeline {
    /// Boots the kernel, creates the channels and the regions, and spawns
    /// every stage with least-privilege capabilities.
    #[verifier::spinoff_prover]
    #[verifier::rlimit(100)]
    pub fn new(config: PipelineConfig) -> (r: Result<KernelPipeline, PipelineError>)
        requires
            pipeline_fits(config),
        ensures
            r is Ok,
            r matches Ok(p) ==> p.fresh() && p.config_spec() == config && {
                let procs = p.sched_spec().procs();
                &&& procs.len() == config.stages + 3
                &&& procs[0].table().dom() == handles_below(config.stages + 2)
                &&& procs[0].table().len() == config.stages + 2
                &&& procs[config.stages + 2].table().dom() == handles_below(config.pool + 2)
                &&& procs[config.stages + 2].table().len() == config.pool + 2
            },
    {
        let s = config.stages;
        let mut kernel = Kernel::new();
        let mut sched = Scheduler::new();
        let mut channels = ChannelRegistry::new();
        let mut memory = RegionRegistry::new();
        let supervisor = sched.spawn(Vec::new());
        // Channel c_i feeds transformer i; c_stages feeds the sink.
        let mut chan_caps: Vec<Capability> = Vec::new();
        let mut i: usize = 0;
        while i <= s
            invariant
                i <= s + 1,
                s + 4 <= usize::MAX,
                kernel.wf(),
                kernel.next_id() == i,
                forall|id: u64| #[trigger] kernel.epochs().contains_key(id) <==> id < i,
                forall|id: u64| id < i ==> #[trigger] kernel.epochs()[id] == 0,
                channels.queues().dom() == Set::new(|id: u64| id < i),
                forall|id: u64| id < i ==> #[trigger] channels.queues()[id] == Seq::<Message>::empty(),
                chan_caps@.len() == i,
                forall|k: int|
                    0 <= k < i ==> (#[trigger] chan_caps@[k]).object().id() == k && chan_caps@[k].rights()
                        == full_rights() && chan_caps@[k].epoch() == 0,
            decreases s + 1 - i,
        {
            let c = channels.new_channel(&mut kernel);
            chan_caps.push(c);
            i = i + 1;
            proof {
                assert(channels.queues().dom() =~= Set::new(|id: u64| id < i));
            }
        }
        let return_cap = channels.new_channel(&mut kernel);
        proof {
            assert(channels.queues().dom() =~= Set::new(|id: u64| id < s + 2));
        }
        let mut region_caps: Vec<Capability> = Vec::new();
        let mut i: usize = 0;
        while i < config.pool
            invariant
                i <= config.pool,
                pipeline_fits(config),
                s == config.stages,
                kernel.wf(),
                kernel.next_id() == s + 2 + i,
                forall|id: u64| #[trigger] kernel.epochs().contains_key(id) <==> id < s + 2 + i,
                forall|id: u64| id < s + 2 + i ==> #[trigger] kernel.epochs()[id] == 0,
                memory.wf(),
                memory.regions().dom() == Set::new(|id: u64| s + 2 <= id < s + 2 + i),
                forall|id: u64|
                    s + 2 <= id < s + 2 + i ==> (#[trigger] memory.regions()[id]).len() == config.region_size,
                region_caps@.len() == i,
                forall|k: int|
                    0 <= k < i ==> (#[trigger] region_caps@[k]).object().id() == s + 2 + k
                        && region_caps@[k].rights() == full_rights() && region_caps@[k].epoch() == 0,
            decreases config.pool - i,
        {
            let c = memory.new_region(&mut kernel, config.region_size);
            region_caps.push(c);
            i = i + 1;
            proof {
                assert(memory.regions().dom() =~= Set::new(|id: u64| s + 2 <= id < s + 2 + i));
            }
        }
        let ghost k0 = kernel;
        let ghost s0 = sched;
        proof {
            sched.lemma_wf();
        }
        let sup = sched.process_mut(supervisor).expect("just spawned");
        let chan = grant_all(sup, &chan_caps);
        let ret = sup.grant(return_cap);
        let regions = grant_all(sup, &region_caps);
        let ghost t0 = sched.procs()[0].table();
        proof {
            Scheduler::lemma_update_wf(s0, sched, 0, sched.procs()[0]);
            sched.lemma_wf();
            assert forall|h: u32| #[trigger] t0.contains_key(h) <==> h < s + 2 + config.pool by {}
            assert forall|h: u32| h < s + 2 + config.pool implies (#[trigger] t0[h]).object().id() == h
                && t0[h].rights() == full_rights() && t0[h].epoch() == 0 by {
                if h <= s {
                    assert(chan_caps@[h as int].object().id() == h);
                } else if h == s + 1 {
                } else {
                    assert(region_caps@[h - s - 2].object().id() == h);
                }
            }
            assert(sched.procs()[0].clock_state().time() == 0);
            assert(sched.ready() =~= Seq::new(1, |k: int| ProcessId(k as u64)));
        }
        let mut stages: Vec<Stage> = vec![
            Stage {
                pid: supervisor,
                role: Role::Supervisor,
                input: None,
                output: None,
                free_regions: VecDeque::new(),
                next_batch: 0,
            },
        ];
        // Spawned downstream first: round-robin follows spawn order, so each
        // round moves every batch in flight one stage on.
        let (sink, h) = match spawn_stage(&mut kernel, &mut sched, supervisor, chan[s], ret) {
            Ok(x) => x,
            Err(e) => {
                return Err(e);
            },
        };
        stages.push(
            Stage {
                pid: sink,
                role: Role::Sink,
                input: Some(h[0]),
                output: Some(h[1]),
                free_regions: VecDeque::new(),
                next_batch: 0,
            },
        );
        proof {
            sched.lemma_wf();
            assert(sched.ready() =~= Seq::new(2, |k: int| ProcessId(k as u64)));
            assert(sched.procs()[1] == sched.procs().last());
            assert(sched.procs()[0].table() == t0);
        }
        let mut j: usize = 0;
        while j < s
            invariant
                j <= s,
                s == config.stages,
                pipeline_fits(config),
                supervisor == ProcessId(0),
                kernel.wf(),
                kernel.epochs() == k0.epochs(),
                kernel.next_id() == k0.next_id(),
                sched.wf(),
                sched.procs().len() == j + 2,
                sched.next_pid() == j + 2,
                sched.ready() == Seq::new((j + 2) as nat, |k: int| ProcessId(k as u64)),
                sched.procs()[0].table() == t0,
                sched.procs()[0].next_handle() == s + 2 + config.pool,
                sched.procs()[0].clock_state().time() == j + 1,
                supervisor_table_ok(t0, s + 2 + config.pool),
                forall|id: u64| id < s + 2 ==> #[trigger] k0.epochs()[id] == 0,
                forall|id: u64| #[trigger] k0.epochs().contains_key(id) <==> id < s + 2 + config.pool,
                chan@.len() == s + 1,
                forall|k: int| 0 <= k <= s ==> (#[trigger] chan@[k]).0 == k,
                stages_spawned(sched, stages@, j + 2, s as int),
            decreases s - j,
        {
            let i = s - 1 - j;
            let ghost st_before = stages@;
            let ghost procs_before = sched.procs();
            let (pid, h) = match spawn_stage(&mut kernel, &mut sched, supervisor, chan[i], chan[i + 1]) {
                Ok(x) => x,
                Err(e) => {
                    return Err(e);
                },
            };
            stages.push(
                Stage {
                    pid,
                    role: Role::Transformer(i),
                    input: Some(h[0]),
                    output: Some(h[1]),
                    free_regions: VecDeque::new(),
                    next_batch: 0,
                },
            );
            proof {
                sched.lemma_wf();
                assert(sched.ready() =~= Seq::new((j + 3) as nat, |k: int| ProcessId(k as u64)));
                let np = sched.procs()[0];
                assert forall|k: int| 1 <= k < j + 2 implies sched.procs()[k] == procs_before[k] by {
                    assert(sched.procs()[k] == sched.procs().drop_last()[k]);
                }
                assert(sched.procs()[j + 2] == sched.procs().last());
                assert(t0[chan@[i as int].0].object().id() == i);
                assert(t0[chan@[i + 1].0].object().id() == i + 1);
                assert forall|k: int| 0 <= k < j + 3 implies #[trigger] stage_shape(stages@[k], k, s as int) by {
                    if k < j + 2 {
                        assert(stages@[k] == st_before[k]);
                    }
                }
                assert forall|k: int| 1 <= k < j + 3 implies {
                    &&& (#[trigger] sched.procs()[k]).table().dom() == Set::new(|h: u32| h < 2)
                    &&& sched.procs()[k].next_handle() == 2
                    &&& sched.procs()[k].clock_state().time() <= s + 3
                } by {
                    if k < j + 2 {
                        assert(sched.procs()[k] == procs_before[k]);
                    }
                }
                assert forall|k: int| 2 <= k < j + 3 implies view_of(
                    #[trigger] sched.procs()[k].table()[0],
                    s + 1 - k,
                    Rights::READ(),
                ) && view_of(sched.procs()[k].table()[1], s + 2 - k, Rights::WRITE()) by {
                    if k < j + 2 {
                        assert(sched.procs()[k] == procs_before[k]);
                    }
                }
                assert(sched.procs()[1] == procs_before[1]);
            }
            j = j + 1;
        }
        let ghost procs_b = sched.procs();
        let ghost st_b = stages@;
        let ghost kb = kernel;
        proof {
            sched.lemma_wf();
            assert forall|jj: int| 0 <= jj < regions.len() implies full_cap_at(
                kernel,
                sched.procs()[0].table(),
                #[trigger] regions@[jj],
            ) by {
                assert(regions@[jj].0 == s + 2 + jj);
            }
            assert(full_cap_at(kernel, t0, chan@[0]));
            assert(full_cap_at(kernel, t0, ret));
            let t = t0;
            let ids = Seq::new((regions.len() + 2) as nat, |j: int| if j == 0 {
                t[chan@[0].0].object().id()
            } else if j == 1 {
                t[ret.0].object().id()
            } else {
                t[regions@[j - 2].0].object().id()
            });
            assert forall|a: int, b: int| 0 <= a < ids.len() && 0 <= b < ids.len() && a != b implies ids[a] != ids[b] by {
                if a >= 2 {
                    assert(regions@[a - 2].0 == s + 2 + (a - 2));
                }
                if b >= 2 {
                    assert(regions@[b - 2].0 == s + 2 + (b - 2));
                }
            }
        }
        let (producer, ph) = match spawn_producer(&mut kernel, &mut sched, supervisor, chan[0], ret, &regions) {
            Ok(x) => x,
            Err(e) => {
                return Err(e);
            },
        };
        let mut free_regions: VecDeque<Handle> = VecDeque::new();
        let mut k: usize = 2;
        while k < ph.len()
            invariant
                2 <= k <= ph.len(),
                ph@.len() == config.pool + 2,
                forall|a: int| 0 <= a < ph@.len() ==> (#[trigger] ph@[a]).0 == a,
                free_regions@.len() == k - 2,
                forall|a: int| 0 <= a < k - 2 ==> (#[trigger] free_regions@[a]).0 == a + 2,
            decreases ph.len() - k,
        {
            free_regions.push_back(ph[k]);
            k = k + 1;
        }
        stages.push(
            Stage {
                pid: producer,
                role: Role::Producer,
                output: Some(ph[0]),
                input: Some(ph[1]),
                free_regions,
                next_batch: 0,
            },
        );
        let p = KernelPipeline { config, kernel, sched, channels, memory, stages };
        proof {
            let n = s as int;
            let pool = config.pool as int;
            let zero = Stats { scheduler_turns: 0, idle_turns: 0, messages: 0, bytes_processed: 0 };
            p.sched.lemma_wf();
            assert(p.n() == n);
            let np = p.sched.procs()[0];
            assert forall|k: int| 1 <= k < n + 2 implies p.sched.procs()[k] == procs_b[k] by {
                assert(p.sched.procs()[k] == p.sched.procs().drop_last()[k]);
            }
            assert(p.sched.procs()[n + 2] == p.sched.procs().last());
            // Shape.
            assert forall|k: int| 0 <= k < n + 3 implies #[trigger] stage_shape(p.stages@[k], k, n) by {
                if k < n + 2 {
                    assert(p.stages@[k] == st_b[k]);
                }
            }
            assert forall|jj: int| 0 <= jj < pool implies (#[trigger] regions@[jj]).0 == n + 2 + jj
                && t0[regions@[jj].0].object().id() == n + 2 + jj by {}
            assert forall|id: u64| #[trigger] p.kernel.epochs().contains_key(id) <==> id < n + 2 + pool by {}
            assert forall|id: u64| id < n + 2 implies #[trigger] p.kernel.epochs()[id] == 0 by {
                assert(p.kernel.epochs().contains_key(id));
                assert(kb.epochs()[id] == 0);
                if exists|jj: int| 0 <= jj < regions.len() && t0[(#[trigger] regions@[jj]).0].object().id() == id {
                    let jj = choose|jj: int| 0 <= jj < regions.len() && t0[(#[trigger] regions@[jj]).0].object().id() == id;
                    assert(t0[regions@[jj].0].object().id() == n + 2 + jj);
                }
            }
            assert forall|id: u64| p.is_region(id as int) implies #[trigger] p.kernel.epochs()[id] == 1 by {
                let jj = id - n - 2;
                assert(t0[regions@[jj].0].object().id() == id);
                assert(p.kernel.epochs().contains_key(id));
            }
            assert(p.memory.regions().dom() =~= region_ids(p.config));
            assert(p.inv_shape());
            // Tables.
            let q = p.qs();
            assert forall|k: int| 0 <= k <= n implies (#[trigger] q[k]).len() == 0 by {
                assert(q[k] == p.channels.queues()[k as u64]);
            }
            assert(p.ret().len() == 0);
            crate::workload::flow::lemma_flat_len(q, (n + 1) as nat, batch_fn());
            let c = p.sched.procs()[n + 2];
            let pt = c.table();
            let fr = p.free();
            assert(fr.len() == pool);
            assert forall|jj: int| 0 <= jj < pool implies (#[trigger] fr[jj]).0 == jj + 2 by {}
            assert(pt.dom() =~= producer_handles(fr)) by {
                assert forall|h: u32| h < pool + 2 implies (h < 2 || fr.contains(Handle(h))) by {
                    if h >= 2 {
                        assert(fr[h - 2] == Handle(h));
                    }
                }
            }
            assert(fr.no_duplicates()) by {
                assert forall|a: int, b: int| 0 <= a < fr.len() && 0 <= b < fr.len() && a != b implies fr[a] != fr[b] by {
                    assert(fr[a].0 == a + 2 && fr[b].0 == b + 2);
                }
            }
            assert forall|jj: int| 0 <= jj < fr.len() implies p.live_region(pt[(#[trigger] fr[jj]).0]) by {
                assert(fr[jj].0 == jj + 2);
                let d = pt[(jj + 2) as u32];
                assert(d.object() == t0[regions@[jj].0].object());
                assert(regions@[jj].0 == n + 2 + jj);
                assert(p.kernel.epochs()[(n + 2 + jj) as u64] == 1);
            }
            assert forall|k: int| 0 <= k < n + 3 implies (#[trigger] p.sched.procs()[k]).clock_state().time() <= p.bound(0, zero) by {
                if 1 <= k < n + 2 {
                    assert(p.sched.procs()[k] == procs_b[k]);
                }
            }
            assert forall|k: int| 1 <= k <= n + 1 implies (#[trigger] p.table_at(k)).dom() == handles_below(2) by {
                assert(handles_below(2) =~= Set::new(|h: u32| h < 2));
                assert(p.sched.procs()[k] == procs_b[k]);
            }
            assert(p.sched.procs()[1] == procs_b[1]);
            assert forall|i: int| 0 <= i < n implies {
                &&& view_of(#[trigger] p.table_at(n + 1 - i)[0], i, Rights::READ())
                &&& view_of(p.table_at(n + 1 - i)[1], i + 1, Rights::WRITE())
                &&& p.sched.procs()[n + 1 - i].next_handle() == 2 + p.next_batch() - flat(
                    p.qs(),
                    (i + 1) as nat,
                    batch_fn(),
                ).len()
            } by {
                let k = n + 1 - i;
                assert(p.sched.procs()[k] == procs_b[k]);
                crate::workload::flow::lemma_flat_len(q, (i + 1) as nat, batch_fn());
            }
            assert(p.inv_tables(0, zero));
            // Flow.
            assert(flat(q, (n + 1) as nat, batch_fn()) =~= batch_range(0, 0));
            crate::workload::flow::lemma_flat_len(q, (n + 1) as nat, region_fn());
            let fids = p.free_ids();
            assert forall|jj: int| 0 <= jj < pool implies #[trigger] fids[jj] == n + 2 + jj by {
                assert(fr[jj].0 == jj + 2);
                let d = pt[(jj + 2) as u32];
                assert(d.object() == t0[regions@[jj].0].object());
            }
            assert(p.all_regions() =~= fids);
            assert(fids.no_duplicates()) by {
                assert forall|a: int, b: int| 0 <= a < fids.len() && 0 <= b < fids.len() && a != b implies fids[a] != fids[b] by {
                    assert(fids[a] == n + 2 + a && fids[b] == n + 2 + b);
                }
            }
            assert forall|jj: int| 0 <= jj < fr.len() implies p.memory.regions()[#[trigger] fids[jj]].len() == config.region_size by {
                assert(fids[jj] == n + 2 + jj);
            }
            crate::workload::flow::lemma_hops_empty(q, (n + 1) as nat, n + 1);
            assert(p.inv_flow(0, zero));
            assert(p.sched.ready() =~= rotated(n + 3, 0));
            assert(pt.dom() =~= handles_below(pool + 2));
            assert(np.table().dom() =~= handles_below(n + 2)) by {
                assert forall|h: u32| np.table().contains_key(h) <==> h < n + 2 by {
                    if n + 2 <= h < n + 2 + pool {
                        assert(regions@[h - n - 2].0 == h);
                    }
                }
            }
            lemma_handles_below_len((pool + 2) as nat);
            lemma_handles_below_len((n + 2) as nat);
        }
        Ok(p)
    }
}

/// There are `k` handles below `k`.
pub proof fn lemma_handles_below_len(k: nat)
    requires
        k <= u32::MAX + 1,
    ensures
        handles_below(k as int).finite(),
        handles_below(k as int).len() == k,
    decreases k,
{
    if k == 0 {
        assert(handles_below(0) =~= Set::<u32>::empty());
    } else {
        lemma_handles_below_len((k - 1) as nat);
        assert(handles_below(k as int) =~= handles_below(k - 1).insert((k - 1) as u32));
    }
}

/// Every result so far is batch `j` with its reference checksum, in order.
pub open spec fn results_ok(cfg: PipelineConfig, results: Seq<BatchResult>) -> bool {
    forall|j: int| 0 <= j < results.len() ==> #[trigger] results[j] == expected_result(cfg, j)
}

/// The `k`th event of a batch's journey round a ring of `n` transformers:
/// the producer sends it, each transformer in turn receives it and sends it
/// on, the sink receives it and sends the region back, and the producer
/// takes the region back.
pub open spec fn hop(k: int, n: int) -> (Role, Action) {
    if k == 0 {
        (Role::Producer, Action::Send)
    } else if k <= 2 * n {
        (
            Role::Transformer(((k - 1) / 2) as usize),
            if k % 2 == 1 {
                Action::Receive
            } else {
                Action::Send
            },
        )
    } else if k == 2 * n + 1 {
        (Role::Sink, Action::Receive)
    } else if k == 2 * n + 2 {
        (Role::Sink, Action::Send)
    } else {
        (Role::Producer, Action::Receive)
    }
}

/// How many of the first `j` events of `trace` are of batch `b`.
pub open spec fn count_of(trace: Seq<TraceEvent>, b: u64, j: int) -> int
    decreases j,
{
    if j <= 0 {
        0
    } else {
        count_of(trace, b, j - 1) + if trace[j - 1].batch == b {
            1int
        } else {
            0int
        }
    }
}

/// The index of the last of the first `j` events of batch `b`, or -1.
pub open spec fn last_of(trace: Seq<TraceEvent>, b: u64, j: int) -> int
    decreases j,
{
    if j <= 0 {
        -1
    } else if trace[j - 1].batch == b {
        j - 1
    } else {
        last_of(trace, b, j - 1)
    }
}

/// `a` happened before `b`, by their vector times.
pub open spec fn stamp_before(a: Stamp, b: Stamp) -> bool {
    a.vector().causality_spec(b.vector()) == crate::clock::Causality::Before
}

/// Event `j` is the next hop of its batch, and the batch's previous event
/// happened before it.
pub open spec fn next_hop_at(trace: Seq<TraceEvent>, j: int, n: int) -> bool {
    let e = trace[j];
    let i = last_of(trace, e.batch, j);
    &&& (e.role, e.action) == hop(count_of(trace, e.batch, j), n)
    &&& i >= 0 ==> stamp_before(trace[i].stamp, e.stamp)
}

/// Every event is the next hop of its batch, and the batch's previous event
/// happened before it: each batch's hops are causally chained by their
/// stamps alone.
pub open spec fn trace_follows_hops(trace: Seq<TraceEvent>, n: int) -> bool {
    forall|j: int| 0 <= j < trace.len() ==> #[trigger] next_hop_at(trace, j, n)
}

/// The trace of a whole run of `cfg`: every event is the next hop of a
/// batch of the run, chained to the one before, and every batch made every
/// hop up to the sink sending its region back (the producer takes the last
/// regions back only if it gets another turn).
pub open spec fn trace_complete(cfg: PipelineConfig, trace: Seq<TraceEvent>) -> bool {
    let n = cfg.stages as int;
    &&& trace_follows_hops(trace, n)
    &&& forall|j: int| 0 <= j < trace.len() ==> (#[trigger] trace[j]).batch < cfg.batches
    &&& forall|b: u64|
        b < cfg.batches ==> 2 * n + 3 <= #[trigger] count_of(trace, b, trace.len() as int) <= 2 * n + 4
}

proof fn lemma_count_prefix(t: Seq<TraceEvent>, e: TraceEvent, b: u64, j: int)
    requires
        j <= t.len(),
    ensures
        count_of(t.push(e), b, j) == count_of(t, b, j),
        last_of(t.push(e), b, j) == last_of(t, b, j),
    decreases j,
{
    if j > 0 {
        lemma_count_prefix(t, e, b, j - 1);
        assert(t.push(e)[j - 1] == t[j - 1]);
    }
}

/// Appending `e` adds one to its batch's count and makes it that batch's
/// last event; every other batch is as it was.
proof fn lemma_count_push(t: Seq<TraceEvent>, e: TraceEvent, b: u64)
    ensures
        count_of(t.push(e), b, t.len() + 1int) == count_of(t, b, t.len() as int) + if e.batch == b {
            1int
        } else {
            0int
        },
        last_of(t.push(e), b, t.len() + 1int) == if e.batch == b {
            t.len() as int
        } else {
            last_of(t, b, t.len() as int)
        },
{
    lemma_count_prefix(t, e, b, t.len() as int);
    assert(t.push(e)[t.len() as int] == e);
}

proof fn lemma_last_of(t: Seq<TraceEvent>, b: u64, j: int)
    requires
        0 <= j <= t.len(),
    ensures
        last_of(t, b, j) < j,
        last_of(t, b, j) >= 0 ==> t[last_of(t, b, j)].batch == b,
        count_of(t, b, j) >= 0,
        count_of(t, b, j) > 0 <==> last_of(t, b, j) >= 0,
    decreases j,
{
    if j > 0 {
        lemma_last_of(t, b, j - 1);
    }
}

/// A batch none of the first `j` events belongs to has no count there.
proof fn lemma_count_absent(t: Seq<TraceEvent>, b: u64, j: int)
    requires
        j <= t.len(),
        forall|i: int| 0 <= i < j ==> (#[trigger] t[i]).batch != b,
    ensures
        count_of(t, b, j) == 0,
        last_of(t, b, j) == -1,
    decreases j,
{
    if j > 0 {
        lemma_count_absent(t, b, j - 1);
    }
}

/// Appending the next hop of its batch, after that batch's last event,
/// keeps every event the next hop of its batch.
proof fn lemma_follows_push(t: Seq<TraceEvent>, e: TraceEvent, n: int)
    requires
        trace_follows_hops(t, n),
        (e.role, e.action) == hop(count_of(t, e.batch, t.len() as int), n),
        last_of(t, e.batch, t.len() as int) >= 0 ==> stamp_before(t[last_of(t, e.batch, t.len() as int)].stamp, e.stamp),
    ensures
        trace_follows_hops(t.push(e), n),
{
    let t2 = t.push(e);
    assert forall|j: int| 0 <= j < t2.len() implies #[trigger] next_hop_at(t2, j, n) by {
        lemma_count_prefix(t, e, t2[j].batch, j);
        if j < t.len() {
            assert(t2[j] == t[j]);
            assert(next_hop_at(t, j, n));
            lemma_last_of(t, t[j].batch, j);
        } else {
            lemma_last_of(t, e.batch, t.len() as int);
        }
    }
}

/// Records a trace event when tracing is on.
fn trace(report: &mut PipelineReport, on: bool, role: Role, action: Action, batch: u64, stamp: Stamp)
    ensures
        final(report).results@ == old(report).results@,
        final(report).stats == old(report).stats,
        !on ==> final(report).trace@ == old(report).trace@,
        on ==> final(report).trace@ == old(report).trace@.push(TraceEvent { role, action, batch, stamp }),
{
    if on {
        report.trace.push(TraceEvent { role, action, batch, stamp });
    }
}

impl KernelPipeline {
    /// The stage at position `s` has nothing to do.
    spec fn idle_at(&self, s: int) -> bool {
        match role_at(s, self.n()) {
            Role::Supervisor => true,
            Role::Producer => self.ret().len() == 0 && !(self.next_batch() < self.config.batches
                && self.free().len() > 0),
            Role::Transformer(i) => self.qs()[i as int].len() == 0,
            Role::Sink => self.qs()[self.n()].len() == 0,
        }
    }

    /// What the schedule depends on, with `done` batches finished.
    spec fn counts(&self, done: int) -> FlowCounts {
        FlowCounts {
            lens: lens_of(self.qs()),
            ret: self.ret().len() as int,
            free: self.free().len() as int,
            next: self.next_batch() as int,
            done,
        }
    }

    /// A stage with nothing to do changes nothing the schedule sees.
    proof fn lemma_idle_counts(&self, done: int, t: int)
        requires
            0 <= t < self.n() + 3,
            self.idle_at(t),
        ensures
            flow_turn(self.counts(done), t, self.n(), self.config.batches as int) == (self.counts(done), false),
    {
        let n = self.n();
        if t == 1 {
            assert(self.counts(done).lens[n] == 0);
        } else if 2 <= t <= n + 1 {
            assert(self.counts(done).lens[n + 1 - t] == 0);
        }
    }

    /// Everything the schedule and the invariant depend on is as in `other`.
    spec fn same_flow(&self, other: KernelPipeline) -> bool {
        &&& self.config == other.config
        &&& self.qs() == other.qs()
        &&& self.ret() == other.ret()
        &&& self.free() == other.free()
        &&& self.next_batch() == other.next_batch()
    }

    /// The invariant depends on the parts only through their views.
    proof fn lemma_inv_same(a: KernelPipeline, b: KernelPipeline, done: int, stats: Stats)
        requires
            a.inv(done, stats),
            b.config == a.config,
            b.stages@ == a.stages@,
            b.sched.wf(),
            b.sched.procs() == a.sched.procs(),
            b.kernel.wf(),
            b.kernel.epochs() == a.kernel.epochs(),
            b.kernel.next_id() == a.kernel.next_id(),
            b.channels.queues() == a.channels.queues(),
            b.memory.wf(),
            b.memory.regions() == a.memory.regions(),
        ensures
            b.inv(done, stats),
            b.same_flow(a),
            b.phi() == a.phi(),
    {
        assert(b.qs() == a.qs());
        assert forall|s: int| 0 <= s <= b.n() + 2 implies #[trigger] b.table_at(s) == a.table_at(s) by {}
        assert(b.free_ids() == a.free_ids());
        assert(b.inv_shape());
        assert forall|s: int| 1 <= s <= b.n() + 1 implies (#[trigger] b.table_at(s)).dom() == handles_below(2) by {
            assert(b.table_at(s) == a.table_at(s));
        }
        assert forall|i: int| 0 <= i < b.n() implies {
            &&& view_of(#[trigger] b.table_at(b.n() + 1 - i)[0], i, Rights::READ())
            &&& view_of(b.table_at(b.n() + 1 - i)[1], i + 1, Rights::WRITE())
            &&& b.sched.procs()[b.n() + 1 - i].next_handle() == 2 + b.next_batch() - flat(
                b.qs(),
                (i + 1) as nat,
                batch_fn(),
            ).len()
        } by {
            assert(b.table_at(b.n() + 1 - i) == a.table_at(a.n() + 1 - i));
            assert(view_of(a.table_at(a.n() + 1 - i)[0], i, Rights::READ()));
        }
        assert forall|j: int| 0 <= j < b.free().len() implies b.live_region(b.table_at(b.n() + 2)[(#[trigger] b.free()[j]).0]) by {
            assert(a.live_region(a.table_at(a.n() + 2)[a.free()[j].0]));
        }
        assert(b.inv_tables(done, stats));
        assert(b.inv_flow(done, stats));
    }

    /// What follows the channels in the listing of every region.
    spec fn rest_regions(&self) -> Seq<u64> {
        self.free_ids() + self.ret().map_values(region_fn())
    }

    /// Two messages at different places in the channels carry different
    /// regions, and neither carries a free or returning region.
    proof fn lemma_regions_distinct(&self, done: int, stats: Stats)
        requires
            self.inv(done, stats),
        ensures
            forall|k1: int, j1: int, k2: int, j2: int|
                0 <= k1 <= self.n() && 0 <= j1 < self.qs()[k1].len() && 0 <= k2 <= self.n() && 0 <= j2
                    < self.qs()[k2].len() && (k1 != k2 || j1 != j2) ==> msg_region(#[trigger] self.qs()[k1][j1])
                    != msg_region(#[trigger] self.qs()[k2][j2]),
            forall|k: int, j: int, r: int|
                0 <= k <= self.n() && 0 <= j < self.qs()[k].len() && 0 <= r < self.rest_regions().len()
                    ==> msg_region(#[trigger] self.qs()[k][j]) != #[trigger] self.rest_regions()[r],
            self.rest_regions().no_duplicates(),
    {
        let n = (self.n() + 1) as nat;
        assert(self.all_regions() =~= flat(self.qs(), n, region_fn()) + self.rest_regions());
        assert forall|k1: int, j1: int, k2: int, j2: int|
            0 <= k1 <= self.n() && 0 <= j1 < self.qs()[k1].len() && 0 <= k2 <= self.n() && 0 <= j2
                < self.qs()[k2].len() && (k1 != k2 || j1 != j2) implies msg_region(#[trigger] self.qs()[k1][j1])
                != msg_region(#[trigger] self.qs()[k2][j2]) by {
            lemma_flat_distinct(self.qs(), n, region_fn(), self.rest_regions(), k1, j1, k2, j2);
        }
        assert forall|k: int, j: int, r: int|
            0 <= k <= self.n() && 0 <= j < self.qs()[k].len() && 0 <= r < self.rest_regions().len()
                implies msg_region(#[trigger] self.qs()[k][j]) != #[trigger] self.rest_regions()[r] by {
            lemma_flat_distinct_rest(self.qs(), n, region_fn(), self.rest_regions(), k, j, r);
        }
        let l = flat(self.qs(), n, region_fn()).len() as int;
        assert forall|a: int, b: int| 0 <= a < b < self.rest_regions().len() implies self.rest_regions()[a]
            != self.rest_regions()[b] by {
            assert(self.all_regions()[l + a] == self.rest_regions()[a]);
            assert(self.all_regions()[l + b] == self.rest_regions()[b]);
        }
    }

    proof fn lemma_inv_facts(&self, done: int, stats: Stats)
        requires
            self.inv(done, stats),
        ensures
            self.psi() >= 0,
            stats.messages <= self.config.batches * (self.n() + 2),
            self.bound(done, stats) <= self.n() + 3 + 2 * self.config.batches * (self.n() + 2) + self.config.batches,
            self.n() + 3 + 2 * self.config.batches * (self.n() + 2) + self.config.batches + 2 < u64::MAX,
            self.config.batches * (self.n() + 2) < u64::MAX,
            forall|k: int| 0 <= k < self.n() + 3 ==> (#[trigger] self.sched.procs()[k]).wf() && self.sched.procs()[k].id() == ProcessId(k as u64),
            self.sched.next_pid() == self.n() + 3,
    {
        self.sched.lemma_wf();
        lemma_hops_nonneg(self.qs(), (self.n() + 1) as nat, self.n() + 1);
        let d = self.config.batches - self.next_batch();
        let b = self.config.batches as int;
        let n = self.n();
        assert(d * (n + 2) >= 0) by (nonlinear_arith)
            requires
                d >= 0,
                n >= 0,
        ;
        assert(2 * b * (n + 2) == 2 * (b * (n + 2))) by (nonlinear_arith);
        let x = b * (n + 2);
        assert((2 * x + n + 4) * (n + 4) >= 4 * (2 * x + n + 4)) by (nonlinear_arith)
            requires
                x >= 0,
                n >= 0,
        ;
        assert(x >= b) by (nonlinear_arith)
            requires
                b >= 0,
                n >= 0,
                x == b * (n + 2),
        ;
    }
}

/// `m` has made `k` hops, the last one stamped as `m` is.
spec fn message_traced(trace: Seq<TraceEvent>, m: Message, k: int) -> bool {
    let b = msg_batch(m);
    let i = last_of(trace, b, trace.len() as int);
    &&& count_of(trace, b, trace.len() as int) == k
    &&& i >= 0
    &&& crate::ipc::same_stamp(trace[i].stamp, m.stamp)
}

/// Events of another batch leave a message's record as it was.
proof fn lemma_traced_other(t: Seq<TraceEvent>, e: TraceEvent, m: Message, k: int)
    requires
        message_traced(t, m, k),
        e.batch != msg_batch(m),
    ensures
        message_traced(t.push(e), m, k),
{
    let b = msg_batch(m);
    lemma_count_push(t, e, b);
    lemma_last_of(t, b, t.len() as int);
    assert(t.push(e)[last_of(t, b, t.len() as int)] == t[last_of(t, b, t.len() as int)]);
}

/// The batches `lo..hi` are distinct.
proof fn lemma_batch_range_distinct(lo: int, hi: int)
    requires
        0 <= lo <= hi <= u64::MAX,
    ensures
        batch_range(lo, hi).no_duplicates(),
{
}

/// Stamps equal in every counter relate the same way to every other stamp.
proof fn lemma_same_stamp_before(a: Stamp, a2: Stamp, b: Stamp)
    requires
        crate::ipc::same_stamp(a, a2),
        stamp_before(a2, b),
    ensures
        stamp_before(a, b),
{
    assert forall|key: u64| #[trigger] a.vector().count(key) == a2.vector().count(key) by {}
}

/// A stamp of a clock whose counters are within its time has its counters
/// within its Lamport time.
proof fn lemma_stamp_bounded(c: crate::clock::EventClock<ProcessId>, s: Stamp)
    requires
        c.counts().bounded_by(c.time()),
        c.stamps_now(s),
    ensures
        s.vector().bounded_by(s.lamport()),
{
    assert forall|key: u64| #[trigger] s.vector().count(key) <= s.lamport() by {
        assert(c.counts().count(key) <= c.time());
    }
}

/// A receive of a message stamped `sent` (recorded as `prev`) followed by
/// a send at the same process: the receive stamp `r` follows `prev`, and
/// the send stamp `s` follows `r`.
proof fn lemma_relay_stamps(
    c0: crate::clock::EventClock<ProcessId>,
    c1: crate::clock::EventClock<ProcessId>,
    c2: crate::clock::EventClock<ProcessId>,
    prev: Stamp,
    sent: Stamp,
    r: Stamp,
    s: Stamp,
)
    requires
        c0.counts().bounded_by(c0.time()),
        c0.time() < u64::MAX - 1,
        sent.lamport() < u64::MAX - 1,
        prev.vector().bounded_by(prev.lamport()),
        crate::ipc::same_stamp(prev, sent),
        crate::process::table::receive_step(c0, sent, c1),
        c1.stamps_now(r),
        crate::process::table::local_step(c1, c2),
        c2.stamps_now(s),
    ensures
        stamp_before(prev, r),
        stamp_before(r, s),
        r.vector().bounded_by(r.lamport()),
        s.vector().bounded_by(s.lamport()),
{
    assert(sent.vector().bounded_by(sent.lamport())) by {
        assert forall|key: u64| #[trigger] sent.vector().count(key) <= sent.lamport() by {
            assert(prev.vector().count(key) <= prev.lamport());
        }
    }
    crate::clock::law_receive_happens_after_send(c0, c1, sent, r);
    lemma_same_stamp_before(prev, sent, r);
    crate::clock::law_next_event_happens_after(c1, c2, r, s);
    lemma_stamp_bounded(c1, r);
    lemma_stamp_bounded(c2, s);
}

/// Two hops of one batch, each chained to the one before, appended to a
/// trace that follows every batch's hops.
proof fn lemma_follows_push2(t0: Seq<TraceEvent>, e1: TraceEvent, e2: TraceEvent, n: int, k: int)
    requires
        trace_follows_hops(t0, n),
        e1.batch == e2.batch,
        count_of(t0, e1.batch, t0.len() as int) == k,
        (e1.role, e1.action) == hop(k, n),
        (e2.role, e2.action) == hop(k + 1, n),
        last_of(t0, e1.batch, t0.len() as int) >= 0 ==> stamp_before(
            t0[last_of(t0, e1.batch, t0.len() as int)].stamp,
            e1.stamp,
        ),
        stamp_before(e1.stamp, e2.stamp),
    ensures
        trace_follows_hops(t0.push(e1).push(e2), n),
        count_of(t0.push(e1).push(e2), e1.batch, t0.len() + 2int) == k + 2,
        last_of(t0.push(e1).push(e2), e1.batch, t0.len() + 2int) == t0.len() + 1,
{
    let t1 = t0.push(e1);
    lemma_count_push(t0, e1, e1.batch);
    lemma_follows_push(t0, e1, n);
    lemma_count_push(t1, e2, e1.batch);
    assert(t1[t0.len() as int] == e1);
    lemma_follows_push(t1, e2, n);
}

/// The trace follows every batch's hops; every message in channel `k` of
/// `q` has made `2k + 1` hops, and every one in `ret` (on its way back)
/// `2n + 3`, the last stamped as the message is; the returns carry the last
/// batches done, oldest first; every earlier batch has made all its hops;
/// and no event is of a batch not yet sent.
spec fn traced(
    trace: Seq<TraceEvent>,
    q: Seq<Seq<Message>>,
    ret: Seq<Message>,
    next: u64,
    n: int,
    done: int,
) -> bool {
    let len = trace.len() as int;
    &&& trace_follows_hops(trace, n)
    &&& forall|j: int| 0 <= j < len ==> (#[trigger] trace[j]).batch < next
    &&& forall|j: int| 0 <= j < len ==> (#[trigger] trace[j]).stamp.vector().bounded_by(trace[j].stamp.lamport())
    &&& 0 <= done - ret.len()
    &&& ret.map_values(batch_fn()) == batch_range(done - ret.len(), done)
    &&& forall|k: int, j: int| 0 <= k <= n && 0 <= j < q[k].len() ==> message_traced(trace, #[trigger] q[k][j], 2 * k + 1)
    &&& forall|j: int| 0 <= j < ret.len() ==> message_traced(trace, #[trigger] ret[j], 2 * n + 3)
    &&& forall|b: u64| b < done - ret.len() ==> #[trigger] count_of(trace, b, len) == 2 * n + 4
}

/// After a relay moves batch `msg_batch(m)` from channel `cin` to the next
/// one (from the last channel: onto the way back, one more batch done),
/// recording `e1` and `e2`, every message's record still matches its place.
proof fn lemma_relay_traced(
    t0: Seq<TraceEvent>,
    e1: TraceEvent,
    e2: TraceEvent,
    q: Seq<Seq<Message>>,
    ret: Seq<Message>,
    q2: Seq<Seq<Message>>,
    ret2: Seq<Message>,
    next: u64,
    n: int,
    done: int,
    cin: int,
    m2: Message,
)
    requires
        traced(t0, q, ret, next, n, done),
        q.len() == n + 1,
        0 <= cin <= n,
        q[cin].len() > 0,
        cin == n ==> q2 == q.update(n, q[n].drop_first()) && ret2 == ret.push(m2),
        cin < n ==> q2 == q.update(cin, q[cin].drop_first()).update(cin + 1, q[cin + 1].push(m2)) && ret2 == ret,
        msg_batch(m2) == msg_batch(q[cin][0]),
        e1.batch == msg_batch(q[cin][0]),
        e2.batch == msg_batch(q[cin][0]),
        trace_follows_hops(t0.push(e1).push(e2), n),
        count_of(t0.push(e1).push(e2), e1.batch, t0.len() + 2int) == 2 * cin + 3,
        last_of(t0.push(e1).push(e2), e1.batch, t0.len() + 2int) == t0.len() + 1,
        e1.stamp.vector().bounded_by(e1.stamp.lamport()),
        e2.stamp.vector().bounded_by(e2.stamp.lamport()),
        crate::ipc::same_stamp(e2.stamp, m2.stamp),
        done <= e1.batch < next,
        cin == n ==> e1.batch == done,
        done < u64::MAX,
        forall|k2: int, j2: int|
            0 <= k2 <= n && 0 <= j2 < q[k2].len() && (k2 != cin || j2 != 0) ==> msg_batch(#[trigger] q[k2][j2])
                != e1.batch,
    ensures
        traced(
            t0.push(e1).push(e2),
            q2,
            ret2,
            next,
            n,
            done + if cin == n {
                1int
            } else {
                0int
            },
        ),
{
    let bt = e1.batch;
    let t1 = t0.push(e1);
    let t2 = t1.push(e2);
    let len0 = t0.len() as int;
    let d2 = done + if cin == n {
        1int
    } else {
        0int
    };
    assert(t2[len0] == e1 && t2[len0 + 1] == e2);
    assert forall|j: int| 0 <= j < t2.len() implies (#[trigger] t2[j]).batch < next && t2[j].stamp.vector().bounded_by(
        t2[j].stamp.lamport(),
    ) by {
        if j < len0 {
            assert(t2[j] == t0[j]);
        }
    }
    assert forall|j: int| 0 <= j < ret.len() implies msg_batch(#[trigger] ret[j]) < done by {
        assert(ret.map_values(batch_fn())[j] == batch_range(done - ret.len(), done)[j]);
    }
    if cin == n {
        assert(ret2.map_values(batch_fn()) =~= ret.map_values(batch_fn()).push(bt));
        assert(ret2.map_values(batch_fn()) =~= batch_range(d2 - ret2.len(), d2));
    }
    assert forall|k: int, j: int| 0 <= k <= n && 0 <= j < q2[k].len() implies message_traced(
        t2,
        #[trigger] q2[k][j],
        2 * k + 1,
    ) by {
        if cin < n && k == cin + 1 && j == q[cin + 1].len() {
            assert(q2[k][j] == m2);
        } else {
            let j0 = if k == cin {
                j + 1
            } else {
                j
            };
            assert(q2[k][j] == q[k][j0]);
            assert(message_traced(t0, q[k][j0], 2 * k + 1));
            lemma_traced_other(t0, e1, q[k][j0], 2 * k + 1);
            lemma_traced_other(t1, e2, q[k][j0], 2 * k + 1);
        }
    }
    assert forall|j: int| 0 <= j < ret2.len() implies message_traced(t2, #[trigger] ret2[j], 2 * n + 3) by {
        if j < ret.len() {
            assert(ret2[j] == ret[j]);
            assert(message_traced(t0, ret[j], 2 * n + 3));
            lemma_traced_other(t0, e1, ret[j], 2 * n + 3);
            lemma_traced_other(t1, e2, ret[j], 2 * n + 3);
        } else {
            assert(ret2[j] == m2);
        }
    }
    assert forall|bb: u64| bb < d2 - ret2.len() implies #[trigger] count_of(t2, bb, t2.len() as int) == 2 * n + 4 by {
        assert(count_of(t0, bb, len0) == 2 * n + 4);
        lemma_count_push(t0, e1, bb);
        lemma_count_push(t1, e2, bb);
    }
}

/// The hops the stage at position `index` makes: a relay receives its
/// batch's hop `2c + 1` and sends hop `2c + 2`, where `c` is its input
/// channel.
proof fn lemma_hop_relay(n: int, index: int)
    requires
        n >= 0,
        1 <= index <= n + 1,
    ensures
        hop(2 * (n + 1 - index) + 1, n) == (role_at(index, n), Action::Receive),
        hop(2 * (n + 1 - index) + 2, n) == (role_at(index, n), Action::Send),
{
    let c = n + 1 - index;
    assert((2 * c + 1 - 1) / 2 == c);
    assert((2 * c + 2 - 1) / 2 == c);
}

/// After the producer takes back the oldest returned region (recording
/// `e`), its batch has made every hop.
proof fn lemma_drain_traced(
    t0: Seq<TraceEvent>,
    e: TraceEvent,
    q: Seq<Seq<Message>>,
    ret: Seq<Message>,
    next: u64,
    n: int,
    done: int,
)
    requires
        traced(t0, q, ret, next, n, done),
        done <= next,
        ret.len() > 0,
        e.batch == msg_batch(ret[0]),
        trace_follows_hops(t0.push(e), n),
        e.stamp.vector().bounded_by(e.stamp.lamport()),
        forall|k: int, j: int| 0 <= k <= n && 0 <= j < q[k].len() ==> msg_batch(#[trigger] q[k][j]) >= done,
    ensures
        traced(t0.push(e), q, ret.drop_first(), next, n, done),
{
    let t1 = t0.push(e);
    let len0 = t0.len() as int;
    let r2 = ret.drop_first();
    let bt = e.batch;
    assert(ret.map_values(batch_fn())[0] == batch_range(done - ret.len(), done)[0]);
    assert(bt == done - ret.len());
    assert(message_traced(t0, ret[0], 2 * n + 3));
    lemma_count_push(t0, e, bt);
    assert forall|j: int| 0 <= j < t1.len() implies (#[trigger] t1[j]).batch < next && t1[j].stamp.vector().bounded_by(
        t1[j].stamp.lamport(),
    ) by {
        if j < len0 {
            assert(t1[j] == t0[j]);
        } else {
            assert(bt < done);
        }
    }
    assert(r2.map_values(batch_fn()) =~= batch_range(done - r2.len(), done)) by {
        assert forall|j: int| 0 <= j < r2.len() implies r2.map_values(batch_fn())[j] == batch_range(
            done - r2.len(),
            done,
        )[j] by {
            assert(r2[j] == ret[j + 1]);
            assert(ret.map_values(batch_fn())[j + 1] == batch_range(done - ret.len(), done)[j + 1]);
        }
    }
    assert forall|k: int, j: int| 0 <= k <= n && 0 <= j < q[k].len() implies message_traced(
        t1,
        #[trigger] q[k][j],
        2 * k + 1,
    ) by {
        assert(message_traced(t0, q[k][j], 2 * k + 1));
        lemma_traced_other(t0, e, q[k][j], 2 * k + 1);
    }
    assert forall|j: int| 0 <= j < r2.len() implies message_traced(t1, #[trigger] r2[j], 2 * n + 3) by {
        assert(r2[j] == ret[j + 1]);
        assert(message_traced(t0, ret[j + 1], 2 * n + 3));
        assert(ret.map_values(batch_fn())[j + 1] == batch_range(done - ret.len(), done)[j + 1]);
        lemma_traced_other(t0, e, ret[j + 1], 2 * n + 3);
    }
    assert forall|bb: u64| bb < done - r2.len() implies #[trigger] count_of(t1, bb, t1.len() as int) == 2 * n + 4 by {
        lemma_count_push(t0, e, bb);
        if bb != bt {
            assert(count_of(t0, bb, len0) == 2 * n + 4);
        }
    }
}

/// After the producer sends the next batch on channel 0 in `m2` (recording
/// `e`), that batch has made its first hop.
proof fn lemma_emit_traced(
    t0: Seq<TraceEvent>,
    e: TraceEvent,
    q: Seq<Seq<Message>>,
    ret: Seq<Message>,
    next: u64,
    n: int,
    done: int,
    m2: Message,
)
    requires
        traced(t0, q, ret, next, n, done),
        q.len() == n + 1,
        n >= 0,
        done <= next < u64::MAX,
        e.batch == next,
        msg_batch(m2) == next,
        e.role == Role::Producer,
        e.action == Action::Send,
        e.stamp.vector().bounded_by(e.stamp.lamport()),
        crate::ipc::same_stamp(e.stamp, m2.stamp),
        forall|k: int, j: int| 0 <= k <= n && 0 <= j < q[k].len() ==> msg_batch(#[trigger] q[k][j]) < next,
    ensures
        traced(t0.push(e), q.update(0, q[0].push(m2)), ret, (next + 1) as u64, n, done),
{
    let t1 = t0.push(e);
    let len0 = t0.len() as int;
    let q2 = q.update(0, q[0].push(m2));
    lemma_count_absent(t0, next, len0);
    lemma_follows_push(t0, e, n);
    lemma_count_push(t0, e, next);
    assert(t1[len0] == e);
    assert forall|j: int| 0 <= j < t1.len() implies (#[trigger] t1[j]).batch < next + 1 && t1[j].stamp.vector().bounded_by(
        t1[j].stamp.lamport(),
    ) by {
        if j < len0 {
            assert(t1[j] == t0[j]);
        }
    }
    assert forall|j: int| 0 <= j < ret.len() implies msg_batch(#[trigger] ret[j]) < next by {
        assert(ret.map_values(batch_fn())[j] == batch_range(done - ret.len(), done)[j]);
    }
    assert forall|k: int, j: int| 0 <= k <= n && 0 <= j < q2[k].len() implies message_traced(
        t1,
        #[trigger] q2[k][j],
        2 * k + 1,
    ) by {
        if k == 0 && j == q[0].len() {
            assert(q2[k][j] == m2);
        } else {
            assert(q2[k][j] == q[k][j]);
            assert(message_traced(t0, q[k][j], 2 * k + 1));
            lemma_traced_other(t0, e, q[k][j], 2 * k + 1);
        }
    }
    assert forall|j: int| 0 <= j < ret.len() implies message_traced(t1, #[trigger] ret[j], 2 * n + 3) by {
        assert(message_traced(t0, ret[j], 2 * n + 3));
        lemma_traced_other(t0, e, ret[j], 2 * n + 3);
    }
    assert forall|bb: u64| bb < done - ret.len() implies #[trigger] count_of(t1, bb, t1.len() as int) == 2 * n + 4 by {
        assert(count_of(t0, bb, len0) == 2 * n + 4);
        lemma_count_push(t0, e, bb);
    }
}

/// Once every batch is done, the trace is the whole run's.
proof fn lemma_trace_complete(
    cfg: PipelineConfig,
    trace: Seq<TraceEvent>,
    q: Seq<Seq<Message>>,
    ret: Seq<Message>,
)
    requires
        traced(trace, q, ret, cfg.batches, cfg.stages as int, cfg.batches as int),
    ensures
        trace_complete(cfg, trace),
{
    let n = cfg.stages as int;
    let done = cfg.batches as int;
    assert forall|b: u64| b < cfg.batches implies 2 * n + 3 <= #[trigger] count_of(trace, b, trace.len() as int)
        <= 2 * n + 4 by {
        if b >= done - ret.len() {
            let j = b - (done - ret.len());
            assert(ret.map_values(batch_fn())[j] == batch_range(done - ret.len(), done)[j]);
            assert(message_traced(trace, ret[j], 2 * n + 3));
        }
    }
}

impl KernelPipeline {
    /// With tracing on, the trace is as `traced` says of this pipeline's
    /// channels, returns and next batch.
    spec fn trace_ok(&self, trace: Seq<TraceEvent>, done: int) -> bool {
        traced(trace, self.qs(), self.ret(), self.next_batch(), self.n(), done)
    }

    /// What a relay does to the channels, the returns and the next batch.
    proof fn lemma_relay_shapes(
        a: KernelPipeline,
        b: KernelPipeline,
        index: int,
        m: Message,
        m2: Message,
        bytes: Seq<u8>,
    )
        requires
            pipeline_fits(a.config),
            1 <= index <= a.n() + 1,
            relayed(a, b, index, (a.n() + 1 - index) as u64, (a.n() + 2 - index) as u64, m, m2, bytes),
        ensures
            b.n() == a.n(),
            b.next_batch() == a.next_batch(),
            a.qs().len() == a.n() + 1,
            a.qs()[a.n() + 1 - index].len() > 0,
            m == a.qs()[a.n() + 1 - index][0],
            msg_batch(m2) == msg_batch(m),
            index == 1 ==> b.qs() == a.qs().update(a.n(), a.qs()[a.n()].drop_first()) && b.ret() == a.ret().push(m2),
            index >= 2 ==> b.qs() == a.qs().update(
                a.n() + 1 - index,
                a.qs()[a.n() + 1 - index].drop_first(),
            ).update(a.n() + 2 - index, a.qs()[a.n() + 2 - index].push(m2)) && b.ret() == a.ret(),
            m2 == b.channels.queues()[(a.n() + 2 - index) as u64].last(),
    {
        let n = a.n();
        let cin = n + 1 - index;
        assert(a.qs()[cin] == a.channels.queues()[cin as u64]);
        if index == 1 {
            assert(b.qs() =~= a.qs().update(n, a.qs()[n].drop_first()));
        } else {
            assert(b.qs() =~= a.qs().update(cin, a.qs()[cin].drop_first()).update(cin + 1, a.qs()[cin + 1].push(m2)));
        }
    }

    /// A relay's receive and send keep the trace invariant: the receive
    /// follows the send that stamped the message, the send follows the
    /// receive, and the message moves one channel on (for the sink, onto
    /// the way back, one more batch done).
    proof fn lemma_relay_trace(
        a: KernelPipeline,
        b: KernelPipeline,
        index: int,
        m: Message,
        m2: Message,
        bytes: Seq<u8>,
        t0: Seq<TraceEvent>,
        role: Role,
        r: Stamp,
        s: Stamp,
        c1: crate::clock::EventClock<ProcessId>,
        done: int,
        stats: Stats,
    )
        requires
            a.inv(done, stats),
            a.trace_ok(t0, done),
            1 <= index <= a.n() + 1,
            relayed(a, b, index, (a.n() + 1 - index) as u64, (a.n() + 2 - index) as u64, m, m2, bytes),
            role == role_at(index, a.n()),
            crate::process::table::receive_step(a.sched.procs()[index].clock_state(), m.stamp, c1),
            c1.stamps_now(r),
            crate::process::table::local_step(c1, b.sched.procs()[index].clock_state()),
            b.sched.procs()[index].clock_state().stamps_now(s),
            crate::ipc::same_stamp(m2.stamp, s),
        ensures
            b.trace_ok(
                t0.push(TraceEvent { role, action: Action::Receive, batch: msg_batch(m), stamp: r }).push(
                    TraceEvent { role, action: Action::Send, batch: msg_batch(m), stamp: s },
                ),
                done + if index == 1 {
                    1int
                } else {
                    0int
                },
            ),
    {
        let n = a.n();
        let cin = n + 1 - index;
        let bt = msg_batch(m);
        let e1 = TraceEvent { role, action: Action::Receive, batch: bt, stamp: r };
        let e2 = TraceEvent { role, action: Action::Send, batch: bt, stamp: s };
        let e = a.bound(done, stats);
        let c0 = a.sched.procs()[index].clock_state();
        let q = a.qs();
        a.lemma_inv_facts(done, stats);
        KernelPipeline::lemma_relay_shapes(a, b, index, m, m2, bytes);
        a.lemma_channel_batch(done, stats, cin, 0);
        assert(a.msg_ok(q[cin][0], e));
        assert(c0.time() <= e);
        a.sched.procs()[index].lemma_wf();
        assert(message_traced(t0, q[cin][0], 2 * cin + 1));
        let len0 = t0.len() as int;
        let i0 = last_of(t0, bt, len0);
        lemma_last_of(t0, bt, len0);
        assert(t0[i0].stamp.vector().bounded_by(t0[i0].stamp.lamport()));
        lemma_relay_stamps(c0, c1, b.sched.procs()[index].clock_state(), t0[i0].stamp, m.stamp, r, s);
        lemma_hop_relay(n, index);
        lemma_follows_push2(t0, e1, e2, n, 2 * cin + 1);
        lemma_relay_traced(t0, e1, e2, q, a.ret(), b.qs(), b.ret(), a.next_batch(), n, done, cin, m2);
    }

    /// The producer taking back a returned region keeps the trace
    /// invariant: the receive follows the sink's send that stamped the
    /// message, and the batch has made every hop.
    proof fn lemma_drain_trace(
        a: KernelPipeline,
        b: KernelPipeline,
        m: Message,
        t0: Seq<TraceEvent>,
        r: Stamp,
        done: int,
        stats: Stats,
    )
        requires
            a.inv(done, stats),
            a.trace_ok(t0, done),
            drained(a, b, m),
            crate::process::table::receive_step(
                a.sched.procs()[a.n() + 2].clock_state(),
                m.stamp,
                b.sched.procs()[a.n() + 2].clock_state(),
            ),
            b.sched.procs()[a.n() + 2].clock_state().stamps_now(r),
        ensures
            b.trace_ok(
                t0.push(TraceEvent { role: Role::Producer, action: Action::Receive, batch: msg_batch(m), stamp: r }),
                done,
            ),
    {
        let n = a.n();
        let e = TraceEvent { role: Role::Producer, action: Action::Receive, batch: msg_batch(m), stamp: r };
        let c0 = a.sched.procs()[n + 2].clock_state();
        let c1 = b.sched.procs()[n + 2].clock_state();
        let bound = a.bound(done, stats);
        a.lemma_inv_facts(done, stats);
        a.sched.procs()[n + 2].lemma_wf();
        assert(c0.time() <= bound);
        assert(m == a.ret()[0]);
        assert(a.msg_ok(a.ret()[0], bound));
        assert(message_traced(t0, a.ret()[0], 2 * n + 3));
        let len0 = t0.len() as int;
        let bt = msg_batch(m);
        let i0 = last_of(t0, bt, len0);
        lemma_last_of(t0, bt, len0);
        assert(t0[i0].stamp.vector().bounded_by(t0[i0].stamp.lamport()));
        assert(m.stamp.vector().bounded_by(m.stamp.lamport())) by {
            assert forall|key: u64| #[trigger] m.stamp.vector().count(key) <= m.stamp.lamport() by {
                assert(t0[i0].stamp.vector().count(key) <= t0[i0].stamp.lamport());
            }
        }
        crate::clock::law_receive_happens_after_send(c0, c1, m.stamp, r);
        lemma_same_stamp_before(t0[i0].stamp, m.stamp, r);
        lemma_stamp_bounded(c1, r);
        lemma_follows_push(t0, e, n);
        assert forall|k: int, j: int| 0 <= k <= n && 0 <= j < a.qs()[k].len() implies msg_batch(
            #[trigger] a.qs()[k][j],
        ) >= done by {
            a.lemma_channel_batch(done, stats, k, j);
        }
        lemma_drain_traced(t0, e, a.qs(), a.ret(), a.next_batch(), n, done);
        assert(b.qs() =~= a.qs());
        assert(b.ret() =~= a.ret().drop_first());
    }

    /// The producer sending the next batch keeps the trace invariant: the
    /// send is that batch's first hop.
    proof fn lemma_emit_trace(
        a: KernelPipeline,
        b: KernelPipeline,
        m2: Message,
        t0: Seq<TraceEvent>,
        s: Stamp,
        done: int,
        stats: Stats,
    )
        requires
            a.inv(done, stats),
            a.trace_ok(t0, done),
            emitted(a, b, m2),
            crate::process::table::local_step(
                a.sched.procs()[a.n() + 2].clock_state(),
                b.sched.procs()[a.n() + 2].clock_state(),
            ),
            b.sched.procs()[a.n() + 2].clock_state().stamps_now(s),
            crate::ipc::same_stamp(m2.stamp, s),
        ensures
            b.trace_ok(
                t0.push(TraceEvent { role: Role::Producer, action: Action::Send, batch: a.next_batch(), stamp: s }),
                done,
            ),
    {
        let n = a.n();
        let e = TraceEvent { role: Role::Producer, action: Action::Send, batch: a.next_batch(), stamp: s };
        a.lemma_inv_facts(done, stats);
        lemma_stamp_bounded(b.sched.procs()[n + 2].clock_state(), s);
        assert forall|k: int, j: int| 0 <= k <= n && 0 <= j < a.qs()[k].len() implies msg_batch(
            #[trigger] a.qs()[k][j],
        ) < a.next_batch() by {
            a.lemma_channel_batch(done, stats, k, j);
        }
        lemma_emit_traced(t0, e, a.qs(), a.ret(), a.next_batch(), n, done, m2);
        assert(b.qs() =~= a.qs().update(0, a.qs()[0].push(m2)));
        assert(b.ret() == a.ret());
    }

    /// Against the epochs `e0` and free regions `f0` the run started with:
    /// no region's epoch went back; the first `next` regions of `f0` have
    /// each moved; and the rest lead the free list, in order.
    spec fn moved_ok(&self, e0: Map<u64, u64>, f0: Seq<u64>) -> bool {
        let next = self.next_batch() as int;
        let pool = self.config.pool as int;
        let fi = self.free_ids();
        &&& f0.len() == pool
        &&& forall|id: u64| self.is_region(id as int) ==> #[trigger] self.kernel.epochs()[id] >= e0[id]
        &&& forall|j: int| 0 <= j < pool && j < next ==> self.kernel.epochs()[#[trigger] f0[j]] > e0[f0[j]]
        &&& next < pool ==> fi.len() >= pool - next && forall|i: int| 0 <= i < pool - next ==> #[trigger] fi[i] == f0[next + i]
    }

    /// A relay moves a region: its epoch goes up, and nothing at the
    /// producer changes.
    proof fn lemma_relay_moved(
        a: KernelPipeline,
        b: KernelPipeline,
        index: int,
        m: Message,
        m2: Message,
        bytes: Seq<u8>,
        done: int,
        stats: Stats,
        e0: Map<u64, u64>,
        f0: Seq<u64>,
    )
        requires
            a.inv(done, stats),
            a.moved_ok(e0, f0),
            1 <= index <= a.n() + 1,
            relayed(a, b, index, (a.n() + 1 - index) as u64, (a.n() + 2 - index) as u64, m, m2, bytes),
        ensures
            b.moved_ok(e0, f0),
    {
        let n = a.n();
        a.lemma_inv_facts(done, stats);
        assert(b.table_at(n + 2) == a.table_at(n + 2));
        assert(b.free_ids() == a.free_ids());
        let cin = n + 1 - index;
        assert(a.qs()[cin] == a.channels.queues()[cin as u64]);
        assert(a.msg_ok(a.qs()[cin][0], a.bound(done, stats)));
        assert forall|id: u64| b.is_region(id as int) implies #[trigger] b.kernel.epochs()[id] >= e0[id] by {
            assert(a.kernel.epochs()[id] >= e0[id]);
        }
        assert forall|j: int| 0 <= j < a.config.pool && j < b.next_batch() implies b.kernel.epochs()[#[trigger] f0[j]]
            > e0[f0[j]] by {
            assert(a.kernel.epochs()[f0[j]] > e0[f0[j]]);
        }
    }

    /// Taking back a region changes no epoch and appends to the free list.
    proof fn lemma_drain_moved(a: KernelPipeline, b: KernelPipeline, m: Message, done: int, stats: Stats, e0: Map<u64, u64>, f0: Seq<u64>)
        requires
            a.inv(done, stats),
            a.moved_ok(e0, f0),
            drained(a, b, m),
        ensures
            b.moved_ok(e0, f0),
    {
        let n = a.n();
        let pa = a.sched.procs()[n + 2];
        a.lemma_inv_facts(done, stats);
        pa.lemma_wf();
        assert forall|i: int| 0 <= i < a.free_ids().len() implies #[trigger] b.free_ids()[i] == a.free_ids()[i] by {
            assert(b.free()[i] == a.free()[i]);
            assert(a.table_at(n + 2).contains_key(a.free()[i].0));
        }
    }

    /// Sending the next batch moves the oldest free region.
    proof fn lemma_emit_moved(a: KernelPipeline, b: KernelPipeline, m2: Message, done: int, stats: Stats, e0: Map<u64, u64>, f0: Seq<u64>)
        requires
            a.inv(done, stats),
            a.moved_ok(e0, f0),
            emitted(a, b, m2),
        ensures
            b.moved_ok(e0, f0),
    {
        let n = a.n();
        let pool = a.config.pool as int;
        let next = a.next_batch() as int;
        let pt = a.table_at(n + 2);
        let fr = a.free();
        let x = pt[fr[0].0].object().id();
        a.lemma_inv_facts(done, stats);
        assert(a.free_ids()[0] == x);
        assert(a.live_region(pt[fr[0].0]));
        assert forall|i: int| 0 <= i < b.free_ids().len() implies #[trigger] b.free_ids()[i] == a.free_ids()[i + 1] by {
            assert(b.free()[i] == fr[i + 1]);
            assert(fr[i + 1] != fr[0]);
        }
        assert forall|id: u64| b.is_region(id as int) implies #[trigger] b.kernel.epochs()[id] >= e0[id] by {
            assert(a.kernel.epochs()[id] >= e0[id]);
        }
        assert forall|j: int| 0 <= j < pool && j < b.next_batch() implies b.kernel.epochs()[#[trigger] f0[j]] > e0[f0[j]] by {
            if j < next {
                assert(a.kernel.epochs()[f0[j]] > e0[f0[j]]);
            } else {
                assert(a.free_ids()[0] == f0[next + 0]);
            }
        }
        if b.next_batch() < pool {
            assert forall|i: int| 0 <= i < pool - b.next_batch() implies #[trigger] b.free_ids()[i] == f0[b.next_batch() + i] by {
                assert(a.free_ids()[i + 1] == f0[next + (i + 1)]);
            }
        }
    }

    /// Messages in the channels carry the batches in flight, each once.
    proof fn lemma_channel_batch(&self, done: int, stats: Stats, k: int, j: int)
        requires
            self.inv(done, stats),
            0 <= k <= self.n(),
            0 <= j < self.qs()[k].len(),
        ensures
            done <= msg_batch(self.qs()[k][j]) < self.next_batch(),
            k == self.n() && j == 0 ==> msg_batch(self.qs()[k][j]) == done,
            forall|k2: int, j2: int|
                0 <= k2 <= self.n() && 0 <= j2 < self.qs()[k2].len() && (k2 != k || j2 != j) ==> msg_batch(
                    #[trigger] self.qs()[k2][j2],
                ) != msg_batch(self.qs()[k][j]),
    {
        let q = self.qs();
        let n = self.n();
        let f = flat(q, (n + 1) as nat, batch_fn());
        let p = crate::workload::flow::lemma_flat_index(q, (n + 1) as nat, batch_fn(), k, j);
        assert(f[p] == batch_range(done, self.next_batch() as int)[p]);
        lemma_batch_range_distinct(done, self.next_batch() as int);
        assert(f + Seq::<u64>::empty() =~= f);
        assert forall|k2: int, j2: int|
            0 <= k2 <= n && 0 <= j2 < q[k2].len() && (k2 != k || j2 != j) implies msg_batch(
                #[trigger] q[k2][j2],
            ) != msg_batch(q[k][j]) by {
            lemma_flat_distinct(q, (n + 1) as nat, batch_fn(), Seq::<u64>::empty(), k, j, k2, j2);
        }
    }
}

/// `b` is `a` after process `s` received `m`, the oldest message on channel
/// `c`, granting the capability it carried under the next free handle.
spec fn received(a: KernelPipeline, b: KernelPipeline, s: int, c: u64, m: Message) -> bool {
    let q = a.channels.queues()[c];
    let pa = a.sched.procs()[s];
    let pb = b.sched.procs()[s];
    &&& q.len() > 0
    &&& m == q[0]
    &&& b.config == a.config
    &&& b.stages == a.stages
    &&& b.kernel == a.kernel
    &&& b.memory == a.memory
    &&& b.channels.queues() == a.channels.queues().insert(c, q.drop_first())
    &&& b.sched.wf()
    &&& b.sched.ready() == a.sched.ready()
    &&& b.sched.next_pid() == a.sched.next_pid()
    &&& b.sched.procs() == a.sched.procs().update(s, pb)
    &&& pb.table() == pa.table().insert(pa.next_handle(), m.capabilities@[0])
    &&& pb.next_handle() == pa.next_handle() + 1
    &&& pb.clock_state().time() <= crate::clock::lamport::max_time(pa.clock_state().time(), m.stamp.lamport()) + 1
}

/// `b` is `a` after process `s` moved the region it holds under `h` over
/// channel `c`, with `data`, in a message stamped `stamp`.
spec fn sent(a: KernelPipeline, b: KernelPipeline, s: int, h: Handle, c: u64, data: i64) -> bool {
    let q = a.channels.queues()[c];
    let pa = a.sched.procs()[s];
    let pb = b.sched.procs()[s];
    let cap = pa.table()[h.0];
    let x = cap.object().id();
    let m2 = b.channels.queues()[c].last();
    &&& b.config == a.config
    &&& b.stages == a.stages
    &&& b.memory == a.memory
    &&& b.kernel.wf()
    &&& b.kernel.next_id() == a.kernel.next_id()
    &&& b.kernel.epochs() == a.kernel.epochs().insert(x, (a.kernel.epochs()[x] + 1) as u64)
    &&& b.channels.queues() == a.channels.queues().insert(c, q.push(m2))
    &&& m2.data == data
    &&& m2.capabilities@.len() == 1
    &&& m2.capabilities@[0].object() == cap.object()
    &&& m2.capabilities@[0].rights() == cap.rights()
    &&& m2.capabilities@[0].epoch() == cap.epoch() + 1
    &&& m2.stamp.lamport() == pb.clock_state().time()
    &&& b.sched.wf()
    &&& b.sched.ready() == a.sched.ready()
    &&& b.sched.next_pid() == a.sched.next_pid()
    &&& b.sched.procs() == a.sched.procs().update(s, pb)
    &&& pb.table() == pa.table().remove(h.0)
    &&& pb.next_handle() == pa.next_handle()
    &&& pb.clock_state().time() == pa.clock_state().time() + 1
}

impl KernelPipeline {
    /// Process `pid` receives on the channel it holds a view of under `h`.
    fn receive_at(&mut self, pid: ProcessId, h: Handle, Ghost(c): Ghost<u64>) -> (r: Result<
        Option<crate::ipc::Delivery>,
        PipelineError,
    >)
        requires
            old(self).sched.wf(),
            pid.0 < old(self).sched.procs().len(),
            old(self).sched.procs()[pid.0 as int].wf(),
            old(self).sched.procs()[pid.0 as int].id() == pid,
            old(self).sched.procs()[pid.0 as int].table().contains_key(h.0),
            view_of(old(self).sched.procs()[pid.0 as int].table()[h.0], c as int, Rights::READ()),
            old(self).kernel.epochs().contains_key(c),
            old(self).kernel.epochs()[c] == 0,
            old(self).channels.queues().contains_key(c),
            old(self).sched.procs()[pid.0 as int].clock_state().time() < u64::MAX,
            old(self).channels.queues()[c].len() > 0 ==> {
                let m = old(self).channels.queues()[c][0];
                &&& m.stamp.lamport() < u64::MAX
                &&& m.capabilities@.len() == 1
                &&& old(self).sched.procs()[pid.0 as int].next_handle() + 1 < u32::MAX
            },
        ensures
            r is Ok,
            r matches Ok(None) ==> {
                &&& old(self).channels.queues()[c].len() == 0
                &&& final(self).config == old(self).config
                &&& final(self).stages == old(self).stages
                &&& final(self).kernel == old(self).kernel
                &&& final(self).memory == old(self).memory
                &&& final(self).channels.queues() == old(self).channels.queues()
                &&& final(self).sched.wf()
                &&& final(self).sched.ready() == old(self).sched.ready()
                &&& final(self).sched.procs() == old(self).sched.procs()
            },
            r matches Ok(Some(d)) ==> {
                let m = old(self).channels.queues()[c][0];
                &&& received(*old(self), *final(self), pid.0 as int, c, m)
                &&& d.data == m.data
                &&& d.handles@ == seq![Handle(old(self).sched.procs()[pid.0 as int].next_handle())]
                &&& crate::process::table::receive_step(
                    old(self).sched.procs()[pid.0 as int].clock_state(),
                    m.stamp,
                    final(self).sched.procs()[pid.0 as int].clock_state(),
                )
                &&& final(self).sched.procs()[pid.0 as int].clock_state().stamps_now(d.received_at)
            },
    {
        let ghost s0 = *self;
        let cap = cap_of(&self.sched, pid, h);
        proof {
            assert(crate::rights::bits_contain(1, 1)) by {
                assert(1u32 & 1u32 == 1u32) by (bit_vector);
            }
        }
        let res = self.channels.receive(&self.kernel, &cap, self.sched.process_mut(pid).expect("exists"));
        proof {
            Scheduler::lemma_update_wf(s0.sched, self.sched, pid.0 as int, self.sched.procs()[pid.0 as int]);
        }
        match res {
            Ok(Some(d)) => {
                proof {
                    let m = s0.channels.queues()[c][0];
                    let pa = s0.sched.procs()[pid.0 as int];
                    assert(d.handles@ =~= seq![Handle(pa.next_handle())]);
                    assert(granted(pa.table(), pa.next_handle(), m.capabilities@) =~= pa.table().insert(
                        pa.next_handle(),
                        m.capabilities@[0],
                    ));
                }
                Ok(Some(d))
            },
            Ok(None) => {
                proof {
                    assert(self.sched.procs() =~= s0.sched.procs());
                }
                Ok(None)
            },
            Err(e) => Err(PipelineError::Ipc(e)),
        }
    }

    /// Process `pid` moves the region it holds under `region` over the
    /// channel it holds a send view of under `h`, with `data`.
    fn send_at(
        &mut self,
        pid: ProcessId,
        h: Handle,
        region: Handle,
        data: i64,
        Ghost(c): Ghost<u64>,
    ) -> (r: Result<Stamp, PipelineError>)
        requires
            old(self).sched.wf(),
            old(self).kernel.wf(),
            pid.0 < old(self).sched.procs().len(),
            old(self).sched.procs()[pid.0 as int].wf(),
            old(self).sched.procs()[pid.0 as int].id() == pid,
            old(self).sched.procs()[pid.0 as int].table().contains_key(h.0),
            view_of(old(self).sched.procs()[pid.0 as int].table()[h.0], c as int, Rights::WRITE()),
            old(self).kernel.epochs().contains_key(c),
            old(self).kernel.epochs()[c] == 0,
            old(self).channels.queues().contains_key(c),
            old(self).sched.procs()[pid.0 as int].clock_state().time() < u64::MAX,
            old(self).sched.procs()[pid.0 as int].table().contains_key(region.0),
            ({
                let cap = old(self).sched.procs()[pid.0 as int].table()[region.0];
                &&& cap.rights() == full_rights()
                &&& old(self).kernel.epochs().contains_key(cap.object().id())
                &&& old(self).kernel.epochs()[cap.object().id()] == cap.epoch()
                &&& cap.epoch() < u64::MAX
            }),
        ensures
            r is Ok,
            sent(*old(self), *final(self), pid.0 as int, region, c, data),
            crate::process::table::local_step(
                old(self).sched.procs()[pid.0 as int].clock_state(),
                final(self).sched.procs()[pid.0 as int].clock_state(),
            ),
            final(self).sched.procs()[pid.0 as int].clock_state().stamps_now(r->Ok_0),
            crate::ipc::same_stamp(final(self).channels.queues()[c].last().stamp, r->Ok_0),
    {
        let ghost s0 = *self;
        let ghost t = s0.sched.procs()[pid.0 as int].table();
        let ghost cap = t[region.0];
        let ghost x = cap.object().id();
        let out = cap_of(&self.sched, pid, h);
        let grants = vec![Grant::Move(region)];
        let ghost gs = grants@;
        let ghost cs = seq![cap];
        proof {
            lemma_full_rights_contain();
            assert(crate::rights::bits_contain(2, 2)) by {
                assert(2u32 & 2u32 == 2u32) by (bit_vector);
            }
            assert(resolve_one(self.kernel, t, grants@[0]) == Ok::<Capability, crate::process::GrantError>(cap));
            lemma_resolve_ok(self.kernel, t, grants@, seq![cap]);
        }
        let res = self.channels.send(
            &mut self.kernel,
            &out,
            self.sched.process_mut(pid).expect("exists"),
            grants,
            data,
        );
        proof {
            Scheduler::lemma_update_wf(s0.sched, self.sched, pid.0 as int, self.sched.procs()[pid.0 as int]);
        }
        match res {
            Ok(stamp) => {
                proof {
                    let q = s0.channels.queues()[c];
                    let m2 = self.channels.queues()[c].last();
                    assert(self.channels.queues()[c] =~= q.push(m2));
                    assert(self.channels.queues() =~= s0.channels.queues().insert(c, q.push(m2)));
                    assert(leaves_table(gs[0]));
                    assert(leaving_handles(gs) =~= set![region.0]);
                    assert(self.sched.procs()[pid.0 as int].table() =~= t.remove(region.0));
                    assert(gs[0] is Move && cs[0].object().id() == x);
                    assert(moved_object(gs, cs, x));
                    assert forall|id: u64| #[trigger] self.kernel.epochs().contains_key(id) && id != x
                        implies self.kernel.epochs()[id] == s0.kernel.epochs()[id] by {
                        if moved_object(gs, cs, id) {
                            let i = choose|i: int| 0 <= i < gs.len() && (#[trigger] gs[i]) is Move
                                && cs[i].object().id() == id;
                            assert(i == 0);
                        }
                    }
                    assert(self.kernel.epochs() =~= s0.kernel.epochs().insert(x, (s0.kernel.epochs()[x] + 1) as u64));
                    assert(delivered_as(gs[0], cs[0], m2.capabilities@[0]));
                }
                Ok(stamp)
            },
            Err(e) => Err(PipelineError::Ipc(e)),
        }
    }
}

/// `cap` is a live capability with full rights for a region of `m`.
spec fn region_cap_ok(k: Kernel, m: RegionRegistry, cap: Capability) -> bool {
    &&& cap.rights() == full_rights()
    &&& k.epochs().contains_key(cap.object().id())
    &&& k.epochs()[cap.object().id()] == cap.epoch()
    &&& m.regions().contains_key(cap.object().id())
}

impl KernelPipeline {
    /// The whole of the region `cap` names, read and written back through
    /// `cap`, after stage `stage`'s transform.
    fn transform_region(&mut self, cap: &Capability, stage: usize) -> (r: Result<(), PipelineError>)
        requires
            old(self).memory.wf(),
            region_cap_ok(old(self).kernel, old(self).memory, *cap),
        ensures
            r is Ok,
            final(self).memory.wf(),
            final(self).memory.regions() == old(self).memory.regions().insert(
                cap.object().id(),
                crate::workload::data::transformed(
                    crate::workload::data::stage_key(stage),
                    old(self).memory.regions()[cap.object().id()],
                ),
            ),
            final(self).config == old(self).config,
            final(self).stages == old(self).stages,
            final(self).kernel == old(self).kernel,
            final(self).channels == old(self).channels,
            final(self).sched == old(self).sched,
    {
        proof {
            lemma_full_rights_contain();
            assert(crate::rights::bits_contain(27, 0)) by {
                assert(27u32 & 0u32 == 0u32) by (bit_vector);
            }
        }
        let ghost x = cap.object().id();
        let ghost b0 = self.memory.regions()[x];
        let size = match self.memory.size(&self.kernel, cap) {
            Ok(n) => n,
            Err(e) => {
                return Err(PipelineError::Memory(e));
            },
        };
        let mut bytes = match self.memory.read(&self.kernel, cap, 0, size) {
            Ok(b) => b,
            Err(e) => {
                return Err(PipelineError::Memory(e));
            },
        };
        proof {
            assert(bytes@ =~= b0);
        }
        transform(stage, bytes.as_mut_slice());
        match self.memory.write(&self.kernel, cap, 0, bytes.as_slice()) {
            Ok(()) => {},
            Err(e) => {
                return Err(PipelineError::Memory(e));
            },
        }
        proof {
            let t = crate::workload::data::transformed(crate::workload::data::stage_key(stage), b0);
            assert(crate::memory::written(b0, 0, t) =~= t);
        }
        Ok(())
    }

    /// The whole of the region `cap` names, filled with batch `batch`'s input.
    fn fill_region(&mut self, cap: &Capability, batch: u64) -> (r: Result<(), PipelineError>)
        requires
            old(self).memory.wf(),
            region_cap_ok(old(self).kernel, old(self).memory, *cap),
        ensures
            r is Ok,
            final(self).memory.wf(),
            final(self).memory.regions() == old(self).memory.regions().insert(
                cap.object().id(),
                batch_bytes(old(self).config.seed, batch, old(self).memory.regions()[cap.object().id()].len()),
            ),
            final(self).config == old(self).config,
            final(self).stages == old(self).stages,
            final(self).kernel == old(self).kernel,
            final(self).channels == old(self).channels,
            final(self).sched == old(self).sched,
    {
        proof {
            lemma_full_rights_contain();
            assert(crate::rights::bits_contain(27, 0)) by {
                assert(27u32 & 0u32 == 0u32) by (bit_vector);
            }
        }
        let ghost x = cap.object().id();
        let ghost b0 = self.memory.regions()[x];
        let size = match self.memory.size(&self.kernel, cap) {
            Ok(n) => n,
            Err(e) => {
                return Err(PipelineError::Memory(e));
            },
        };
        let mut bytes = match self.memory.read(&self.kernel, cap, 0, size) {
            Ok(b) => b,
            Err(e) => {
                return Err(PipelineError::Memory(e));
            },
        };
        fill_batch(self.config.seed, batch, bytes.as_mut_slice());
        match self.memory.write(&self.kernel, cap, 0, bytes.as_slice()) {
            Ok(()) => {},
            Err(e) => {
                return Err(PipelineError::Memory(e));
            },
        }
        proof {
            let t = batch_bytes(self.config.seed, batch, b0.len());
            assert(crate::memory::written(b0, 0, t) =~= t);
        }
        Ok(())
    }

    /// The checksum of the region `cap` names.
    fn checksum_region(&self, cap: &Capability) -> (r: Result<u64, PipelineError>)
        requires
            region_cap_ok(self.kernel, self.memory, *cap),
        ensures
            r == Ok::<u64, PipelineError>(crate::workload::data::fnv(self.memory.regions()[cap.object().id()])),
    {
        proof {
            lemma_full_rights_contain();
        }
        match self.memory.inspect(&self.kernel, cap, checksum) {
            Ok(x) => Ok(x),
            Err(e) => Err(PipelineError::Memory(e)),
        }
    }
}

/// Moving the first element to the back keeps a sequence free of
/// duplicates.
proof fn lemma_rotate_no_dup(s: Seq<u64>)
    requires
        s.no_duplicates(),
        s.len() > 0,
    ensures
        s.drop_first().push(s[0]).no_duplicates(),
{
    let t = s.drop_first().push(s[0]);
    assert forall|a: int, b: int| 0 <= a < b < t.len() implies t[a] != t[b] by {
        if b == t.len() - 1 {
            assert(t[a] == s[a + 1]);
        } else {
            assert(t[a] == s[a + 1] && t[b] == s[b + 1]);
        }
    }
}

/// `b` is `a` after stage `index` took `m`, the oldest message on channel
/// `cin`, left `bytes` in its region and moved the region on over channel
/// `cout` in `m2`.
spec fn relayed(
    a: KernelPipeline,
    b: KernelPipeline,
    index: int,
    cin: u64,
    cout: u64,
    m: Message,
    m2: Message,
    bytes: Seq<u8>,
) -> bool {
    let x = msg_region(m);
    let pa = a.sched.procs()[index];
    let pb = b.sched.procs()[index];
    let q = a.channels.queues();
    &&& b.config == a.config
    &&& b.stages == a.stages
    &&& b.kernel.wf()
    &&& b.kernel.next_id() == a.kernel.next_id()
    &&& b.kernel.epochs() == a.kernel.epochs().insert(x, (a.kernel.epochs()[x] + 1) as u64)
    &&& b.memory.wf()
    &&& b.memory.regions() == a.memory.regions().insert(x, bytes)
    &&& q[cin].len() > 0
    &&& m == q[cin][0]
    &&& cin != cout
    &&& b.channels.queues() == q.insert(cin, q[cin].drop_first()).insert(cout, q[cout].push(m2))
    &&& m2.data == m.data
    &&& m2.capabilities@.len() == 1
    &&& m2.capabilities@[0].object() == m.capabilities@[0].object()
    &&& m2.capabilities@[0].rights() == m.capabilities@[0].rights()
    &&& m2.capabilities@[0].epoch() == m.capabilities@[0].epoch() + 1
    &&& m2.stamp.lamport() == pb.clock_state().time()
    &&& b.sched.wf()
    &&& b.sched.ready() == a.sched.ready()
    &&& b.sched.next_pid() == a.sched.next_pid()
    &&& b.sched.procs() == a.sched.procs().update(index, pb)
    &&& pb.table() == pa.table()
    &&& pb.next_handle() == pa.next_handle() + 1
    &&& pb.clock_state().time() <= crate::clock::lamport::max_time(pa.clock_state().time(), m.stamp.lamport()) + 2
}

impl KernelPipeline {
    /// A message in channel `k` owes at least one more send, so one more
    /// message, and its bytes, still fit.
    proof fn lemma_room(&self, done: int, stats: Stats, k: int)
        requires
            self.inv(done, stats),
            0 <= k <= self.n(),
            self.qs()[k].len() > 0,
        ensures
            stats.messages + 1 <= self.config.batches * (self.n() + 2),
            stats.bytes_processed + self.config.region_size <= u64::MAX,
    {
        let q = self.qs();
        let n = self.n();
        lemma_hops_update(q, k, q[k].drop_first(), (n + 1) as nat, n + 1);
        lemma_hops_nonneg(q.update(k, q[k].drop_first()), (n + 1) as nat, n + 1);
        self.lemma_inv_facts(done, stats);
        let d = self.config.batches - self.next_batch();
        assert(d * (n + 2) >= 0) by (nonlinear_arith)
            requires
                d >= 0,
                n >= 0,
        ;
        let b = self.config.batches as int;
        let r = self.config.region_size as int;
        let mm = stats.messages as int;
        let x = b * (n + 2);
        assert((mm + 1) * r <= x * r && (mm + 1) * r == mm * r + r) by (nonlinear_arith)
            requires
                mm + 1 <= x,
                r >= 0,
        ;
        assert(x * r == b * (n + 2) * r) by (nonlinear_arith)
            requires
                x == b * (n + 2),
        ;
    }

    /// A relay turn that did something keeps the invariant, with one more
    /// message sent (and, at the sink, one more batch done), and decreases
    /// what is left to do.
    #[verifier::spinoff_prover]
    #[verifier::rlimit(60)]
    /// A relay's move: one message off its input channel and onto its
    /// output; for the sink the output is the return channel, and one more
    /// batch is done.
    proof fn lemma_relay_counts(
        a: KernelPipeline,
        b: KernelPipeline,
        index: int,
        m: Message,
        m2: Message,
        bytes: Seq<u8>,
        done: int,
    )
        requires
            pipeline_fits(a.config),
            1 <= index <= a.n() + 1,
            relayed(a, b, index, (a.n() + 1 - index) as u64, (a.n() + 2 - index) as u64, m, m2, bytes),
        ensures
            flow_turn(a.counts(done), index, a.n(), a.config.batches as int) == (
                b.counts(
                    done + if index == 1 {
                        1int
                    } else {
                        0int
                    },
                ),
                true,
            ),
    {
        let n = a.n();
        let cin = n + 1 - index;
        let q = a.channels.queues();
        let c = a.counts(done);
        assert(a.qs()[cin] == q[cin as u64]);
        if index == 1 {
            assert(b.qs() =~= a.qs().update(n, a.qs()[n].drop_first()));
            assert(b.counts(done + 1).lens =~= c.lens.update(n, c.lens[n] - 1));
        } else {
            assert(b.qs() =~= a.qs().update(cin, a.qs()[cin].drop_first()).update(
                cin + 1,
                a.qs()[cin + 1].push(m2),
            ));
            assert(b.counts(done).lens =~= c.lens.update(cin, c.lens[cin] - 1).update(cin + 1, c.lens[cin + 1] + 1));
        }
    }

    proof fn lemma_relay_inv(
        a: KernelPipeline,
        b: KernelPipeline,
        index: int,
        m: Message,
        m2: Message,
        bytes: Seq<u8>,
        done: int,
        stats: Stats,
    )
        requires
            a.inv(done, stats),
            1 <= index <= a.n() + 1,
            relayed(
                a,
                b,
                index,
                (a.n() + 1 - index) as u64,
                (a.n() + 2 - index) as u64,
                m,
                m2,
                bytes,
            ),
            index == 1 ==> bytes == a.memory.regions()[msg_region(m)],
            index >= 2 ==> bytes == crate::workload::data::transformed(
                crate::workload::data::stage_key((a.n() + 1 - index) as usize),
                a.memory.regions()[msg_region(m)],
            ),
            stats.messages + 1 <= u64::MAX,
            stats.bytes_processed + a.config.region_size <= u64::MAX,
        ensures
            b.inv(
                done + (if index == 1 { 1int } else { 0int }),
                Stats {
                    messages: (stats.messages + 1) as u64,
                    bytes_processed: (stats.bytes_processed + a.config.region_size) as u64,
                    ..stats
                },
            ),
            b.phi() < a.phi(),
            index == 1 ==> msg_batch(m) == done && bytes == after_stages(
                batch_bytes(a.config.seed, done as u64, a.config.region_size as nat),
                a.n() as nat,
            ),
    {
        let n = a.n();
        let cin = n + 1 - index;
        let cout = n + 2 - index;
        let x = msg_region(m);
        let done2 = done + (if index == 1 { 1int } else { 0int });
        let stats2 = Stats {
            messages: (stats.messages + 1) as u64,
            bytes_processed: (stats.bytes_processed + a.config.region_size) as u64,
            ..stats
        };
        let e = a.bound(done, stats);
        let e2 = b.bound(done2, stats2);
        let qa = a.qs();
        let qb = b.qs();
        a.lemma_inv_facts(done, stats);
        a.lemma_regions_distinct(done, stats);
        assert(qa[cin] == a.channels.queues()[cin as u64]);
        assert(m == qa[cin][0]);
        assert(a.msg_ok(m, e) && a.carried(m, cin));
        let m_old = qa[cin][0];
        // The channels.
        if index == 1 {
            assert(qb =~= qa.update(cin, qa[cin].drop_first()));
            assert(b.ret() =~= a.ret().push(m2));
        } else {
            assert(qb =~= qa.update(cin, qa[cin].drop_first()).update(cout, qa[cout].push(m2)));
            assert(b.ret() == a.ret());
        }
        assert(e2 == e + 2);
        // Shape.
        assert(b.channels.queues().dom() =~= a.channels.queues().dom());
        assert(b.kernel.epochs().dom() =~= a.kernel.epochs().dom());
        assert(b.memory.regions().dom() =~= a.memory.regions().dom());
        assert forall|id: u64| #[trigger] b.kernel.epochs().contains_key(id) <==> id < n + 2 + b.config.pool by {
            assert(a.kernel.epochs().contains_key(id) <==> id < n + 2 + a.config.pool);
        }
        assert forall|id: u64| id < n + 2 implies #[trigger] b.kernel.epochs()[id] == 0 by {
            assert(a.kernel.epochs()[id] == 0);
        }
        assert(b.inv_shape());
        // Tables.
        assert forall|k: int| 0 <= k < n + 3 && k != index implies #[trigger] b.sched.procs()[k] == a.sched.procs()[k] by {}
        assert forall|s: int| 0 <= s <= n + 2 implies (#[trigger] b.table_at(s)) == a.table_at(s) by {
            if s != index {
                assert(b.sched.procs()[s] == a.sched.procs()[s]);
            }
        }
        assert(b.free_ids() == a.free_ids());
        assert(b.rest_regions() == if index == 1 { a.rest_regions().push(x) } else { a.rest_regions() }) by {
            if index == 1 {
                assert(b.ret().map_values(region_fn()) =~= a.ret().map_values(region_fn()).push(x));
                assert(b.rest_regions() =~= a.rest_regions().push(x));
            }
        }
        // The listing of the channels, by batch and by region.
        if index == 1 {
            lemma_flat_pop(qa, (n + 1) as nat, batch_fn());
            lemma_flat_pop(qa, (n + 1) as nat, region_fn());
            assert(flat(qb, (n + 1) as nat, batch_fn()) =~= batch_range(done2, a.next_batch() as int));
        } else {
            lemma_flat_shift(qa, cin, m2, (n + 1) as nat, batch_fn());
            lemma_flat_shift(qa, cin, m2, (n + 1) as nat, region_fn());
        }
        assert forall|i: int| 0 <= i < n implies (#[trigger] b.sched.procs()[n + 1 - i]).next_handle() == 2 + b.next_batch() - flat(
            qb,
            (i + 1) as nat,
            batch_fn(),
        ).len() by {
            let k = n + 1 - i;
            assert(view_of(a.table_at(n + 1 - i)[0], i, Rights::READ()));
            if k != index {
                assert(b.sched.procs()[k] == a.sched.procs()[k]);
            }
            if index == 1 {
                lemma_flat_len_update(qa, cin, qa[cin].drop_first(), (i + 1) as nat, batch_fn());
            } else {
                lemma_flat_len_update(qa, cin, qa[cin].drop_first(), (i + 1) as nat, batch_fn());
                let q1 = qa.update(cin, qa[cin].drop_first());
                lemma_flat_len_update(q1, cout, qa[cout].push(m2), (i + 1) as nat, batch_fn());
            }
        }
        assert forall|i: int| 0 <= i < n implies {
            &&& view_of(#[trigger] b.table_at(n + 1 - i)[0], i, Rights::READ())
            &&& view_of(b.table_at(n + 1 - i)[1], i + 1, Rights::WRITE())
        } by {
            assert(view_of(a.table_at(n + 1 - i)[0], i, Rights::READ()));
        }
        assert forall|j: int| 0 <= j < b.free().len() implies b.live_region(b.table_at(n + 2)[(#[trigger] b.free()[j]).0]) by {
            let c = a.table_at(n + 2)[a.free()[j].0];
            assert(a.live_region(c));
            assert(a.free_ids()[j] == c.object().id());
            assert(a.rest_regions()[j] == a.free_ids()[j]);
            assert(msg_region(qa[cin][0]) != a.rest_regions()[j]);
        }
        assert forall|k: int| 0 <= k < n + 3 implies (#[trigger] b.sched.procs()[k]).clock_state().time() <= e2 by {
            assert(a.sched.procs()[k].clock_state().time() <= e);
        }
        assert(b.inv_tables(done2, stats2));
        // Flow: the messages.
        crate::workload::data::lemma_after_stages_len(batch_bytes(a.config.seed, msg_batch(m), a.config.region_size as nat), cin as nat);
        assert forall|k: int, j: int| 0 <= k <= n && 0 <= j < qb[k].len() implies b.msg_ok(#[trigger] qb[k][j], e2)
            && b.carried(qb[k][j], k) by {
            if k == cout && j == qb[k].len() - 1 {
                assert(qb[k][j] == m2);
                if index >= 2 {
                    assert(after_stages(batch_bytes(a.config.seed, msg_batch(m), a.config.region_size as nat), (cin + 1) as nat)
                        == crate::workload::data::transformed(
                        crate::workload::data::stage_key(cin as usize),
                        after_stages(batch_bytes(a.config.seed, msg_batch(m), a.config.region_size as nat), cin as nat),
                    ));
                }
            } else {
                let jj = if k == cin { j + 1 } else { j };
                assert(qb[k][j] == qa[k][jj]);
                assert(a.msg_ok(qa[k][jj], e) && a.carried(qa[k][jj], k));
                assert(msg_region(qa[k][jj]) != msg_region(qa[cin][0]));
            }
        }
        assert forall|j: int| 0 <= j < b.ret().len() implies b.msg_ok(#[trigger] b.ret()[j], e2)
            && b.memory.regions()[msg_region(b.ret()[j])].len() == b.config.region_size by {
            if index == 1 && j == b.ret().len() - 1 {
                assert(b.ret()[j] == m2);
            } else {
                assert(b.ret()[j] == a.ret()[j]);
                assert(a.msg_ok(a.ret()[j], e));
                let r = a.free_ids().len() + j;
                assert(a.rest_regions()[r] == msg_region(a.ret()[j]));
                assert(msg_region(qa[cin][0]) != a.rest_regions()[r]);
            }
        }
        assert forall|j: int| 0 <= j < b.free().len() implies b.memory.regions()[#[trigger] b.free_ids()[j]].len()
            == b.config.region_size by {
            assert(a.rest_regions()[j] == a.free_ids()[j]);
            assert(msg_region(qa[cin][0]) != a.rest_regions()[j]);
        }
        if index == 1 {
            assert(b.all_regions() =~= a.all_regions().drop_first().push(a.all_regions()[0]));
            lemma_rotate_no_dup(a.all_regions());
        } else {
            assert(b.all_regions() =~= a.all_regions());
        }
        assert forall|id: u64| b.is_region(id as int) implies #[trigger] b.kernel.epochs()[id] <= stats2.messages + 1 by {
            assert(a.kernel.epochs()[id] <= stats.messages + 1);
        }
        // Counters.
        lemma_hops_update(qa, cin, qa[cin].drop_first(), (n + 1) as nat, n + 1);
        if index >= 2 {
            let q1 = qa.update(cin, qa[cin].drop_first());
            lemma_hops_update(q1, cout, qa[cout].push(m2), (n + 1) as nat, n + 1);
        }
        let rr = a.config.region_size as int;
        let mm = stats.messages as int;
        assert((mm + 1) * rr == mm * rr + rr) by (nonlinear_arith);
        assert(b.inv_flow(done2, stats2));
    }
}

impl KernelPipeline {
    /// A turn of a transformer or the sink: take the oldest batch on the
    /// input channel, transform it (the sink records its checksum instead),
    /// and move its region on. Answers whether there was a batch to take.
    #[verifier::spinoff_prover]
    #[verifier::rlimit(100)]
    fn relay_turn(&mut self, index: usize, report: &mut PipelineReport) -> (r: Result<bool, PipelineError>)
        requires
            old(self).inv(old(report).results@.len() as int, old(report).stats),
            results_ok(old(self).config, old(report).results@),
            1 <= index <= old(self).config.stages + 1,
            old(self).config.trace ==> old(self).trace_ok(old(report).trace@, old(report).results@.len() as int),
        ensures
            forall|e0: Map<u64, u64>, f0: Seq<u64>| old(self).moved_ok(e0, f0) ==> #[trigger] final(self).moved_ok(e0, f0),
            final(self).config.trace ==> final(self).trace_ok(final(report).trace@, final(report).results@.len() as int),
            r == Ok::<bool, PipelineError>(!old(self).idle_at(index as int)),
            final(self).config == old(self).config,
            final(self).sched.ready() == old(self).sched.ready(),
            final(self).stages@ == old(self).stages@,
            final(report).stats.scheduler_turns == old(report).stats.scheduler_turns,
            final(report).stats.idle_turns == old(report).stats.idle_turns,
            results_ok(final(self).config, final(report).results@),
            !old(self).config.trace ==> final(report).trace@ == old(report).trace@,
            final(self).inv(final(report).results@.len() as int, final(report).stats),
            old(self).idle_at(index as int) ==> final(self).same_flow(*old(self))
                && final(report).results@ == old(report).results@ && final(report).stats == old(report).stats,
            !old(self).idle_at(index as int) ==> final(self).phi() < old(self).phi(),
            flow_turn(
                old(self).counts(old(report).results@.len() as int),
                index as int,
                old(self).config.stages as int,
                old(self).config.batches as int,
            ) == (final(self).counts(final(report).results@.len() as int), !old(self).idle_at(index as int)),
    {
        let ghost s0 = *self;
        let ghost done = report.results@.len() as int;
        let ghost stats = report.stats;
        let ghost e = self.bound(done, stats);
        let ghost n = self.n();
        let ghost cin = n + 1 - index;
        proof {
            self.lemma_inv_facts(done, stats);
            assert(stage_shape(self.stages@[index as int], index as int, n));
            if index >= 2 {
                let i = n + 1 - index;
                assert(view_of(self.table_at(n + 1 - i)[0], i, Rights::READ()));
            }
            assert(self.table_at(index as int).dom() == handles_below(2));
            assert(self.table_at(index as int).contains_key(0));
            assert(self.table_at(index as int).contains_key(1));
            assert(self.kernel.epochs()[cin as u64] == 0);
            assert(self.kernel.epochs()[(cin + 1) as u64] == 0);
            assert(self.qs()[cin] == self.channels.queues()[cin as u64]);
            if self.qs()[cin].len() > 0 {
                assert(self.msg_ok(self.qs()[cin][0], e));
                self.lemma_room(done, stats, cin);
            }
        }
        let pid = self.stages[index].pid;
        let role = self.stages[index].role;
        let d = match self.receive_at(pid, self.stages[index].input.expect("stage input"), Ghost(cin as u64)) {
            Ok(Some(d)) => d,
            Ok(None) => {
                proof {
                    KernelPipeline::lemma_inv_same(s0, *self, done, stats);
                    s0.lemma_idle_counts(done, index as int);
                    assert(self.table_at(n + 2) == s0.table_at(n + 2));
                }
                return Ok(false);
            },
            Err(e) => {
                return Err(e);
            },
        };
        let ghost s1 = *self;
        let ghost m = s0.qs()[cin][0];
        let ghost x = msg_region(m);
        let ghost nh = s0.sched.procs()[index as int].next_handle();
        proof {
            s0.sched.procs()[index as int].lemma_wf();
            assert(!s0.table_at(index as int).contains_key(nh));
            assert(nh >= 2);
        }
        let batch = d.data as u64;
        let ghost t0 = report.trace@;
        let ghost r_stamp = d.received_at;
        trace(report, self.config.trace, role, Action::Receive, batch, d.received_at);
        if d.handles.len() == 0 {
            return Err(PipelineError::MissingRegion);
        }
        let region = d.handles[0];
        proof {
            assert(s0.qs()[cin] == s0.channels.queues()[cin as u64]);
            assert(s0.msg_ok(m, e));
            assert(s0.is_region(x as int));
            assert(s0.memory.regions().contains_key(x));
        }
        let region_cap = cap_of(&self.sched, pid, region);
        match role {
            Role::Transformer(i) => {
                match self.transform_region(&region_cap, i) {
                    Ok(()) => {},
                    Err(e) => {
                        return Err(e);
                    },
                }
            },
            _ => {
                let sum = match self.checksum_region(&region_cap) {
                    Ok(sum) => sum,
                    Err(e) => {
                        return Err(e);
                    },
                };
                report.results.push(BatchResult { batch, checksum: sum });
            },
        }
        report.stats.bytes_processed = report.stats.bytes_processed + self.config.region_size as u64;
        let ghost s2 = *self;
        proof {
            self.sched.lemma_wf();
            assert(self.sched.procs()[index as int].table().contains_key(nh));
            assert(self.sched.procs()[index as int].table()[1] == s0.table_at(index as int)[1]);
            if index >= 2 {
                let i = n + 1 - index;
                assert(view_of(s0.table_at(n + 1 - i)[1], i + 1, Rights::WRITE()));
            }
        }
        let sent = match self.send_at(
            pid,
            self.stages[index].output.expect("stage output"),
            region,
            d.data,
            Ghost((cin + 1) as u64),
        ) {
            Ok(st) => st,
            Err(e) => {
                return Err(e);
            },
        };
        report.stats.messages = report.stats.messages + 1;
        let ghost s_stamp = sent;
        trace(report, self.config.trace, role, Action::Send, batch, sent);
        proof {
            let m2 = self.channels.queues()[(cin + 1) as u64].last();
            let bytes = self.memory.regions()[x];
            let pa = s0.sched.procs()[index as int];
            assert(self.sched.procs()[index as int].table() =~= pa.table());
            assert(self.sched.procs() =~= s0.sched.procs().update(index as int, self.sched.procs()[index as int]));
            assert(self.memory.regions() =~= s0.memory.regions().insert(x, bytes));
            assert(relayed(s0, *self, index as int, cin as u64, (cin + 1) as u64, m, m2, bytes));
            KernelPipeline::lemma_relay_inv(s0, *self, index as int, m, m2, bytes, done, stats);
            KernelPipeline::lemma_relay_counts(s0, *self, index as int, m, m2, bytes, done);
            assert forall|e0: Map<u64, u64>, f0: Seq<u64>| s0.moved_ok(e0, f0) implies #[trigger] self.moved_ok(e0, f0) by {
                KernelPipeline::lemma_relay_moved(s0, *self, index as int, m, m2, bytes, done, stats, e0, f0);
            }
            if self.config.trace {
                assert(s0.stages@[index as int].role == role);
                KernelPipeline::lemma_relay_trace(
                    s0,
                    *self,
                    index as int,
                    m,
                    m2,
                    bytes,
                    t0,
                    role,
                    r_stamp,
                    s_stamp,
                    s1.sched.procs()[index as int].clock_state(),
                    done,
                    stats,
                );
            }
            if index == 1 {
                assert(batch == done);
                assert(report.results@.last() == expected_result(self.config, done));
                assert forall|j: int| 0 <= j < report.results@.len() implies #[trigger] report.results@[j]
                    == expected_result(self.config, j) by {
                    if j < done {
                        assert(report.results@[j] == old(report).results@[j]);
                    }
                }
            }
        }
        Ok(true)
    }
}

/// `b` is `a` after the producer took back `m`, the oldest returned
/// message, and put its region at the back of the free list.
spec fn drained(a: KernelPipeline, b: KernelPipeline, m: Message) -> bool {
    let n = a.n();
    let q = a.channels.queues()[(n + 1) as u64];
    let pa = a.sched.procs()[n + 2];
    let pb = b.sched.procs()[n + 2];
    let sa = a.stages@[n + 2];
    let sb = b.stages@[n + 2];
    &&& q.len() > 0
    &&& m == q[0]
    &&& b.config == a.config
    &&& b.kernel == a.kernel
    &&& b.memory == a.memory
    &&& b.channels.queues() == a.channels.queues().insert((n + 1) as u64, q.drop_first())
    &&& b.sched.wf()
    &&& b.sched.ready() == a.sched.ready()
    &&& b.sched.next_pid() == a.sched.next_pid()
    &&& b.sched.procs() == a.sched.procs().update(n + 2, pb)
    &&& pb.table() == pa.table().insert(pa.next_handle(), m.capabilities@[0])
    &&& pb.next_handle() == pa.next_handle() + 1
    &&& pb.clock_state().time() <= crate::clock::lamport::max_time(pa.clock_state().time(), m.stamp.lamport()) + 1
    &&& b.stages@.len() == a.stages@.len()
    &&& forall|k: int| 0 <= k < a.stages@.len() && k != n + 2 ==> #[trigger] b.stages@[k] == a.stages@[k]
    &&& sb.pid == sa.pid
    &&& sb.role == sa.role
    &&& sb.input == sa.input
    &&& sb.output == sa.output
    &&& sb.next_batch == sa.next_batch
    &&& sb.free_regions@ == sa.free_regions@.push(Handle(pa.next_handle()))
}

/// `b` is `a` after the producer filled the oldest free region with the
/// next batch and sent it on channel 0 in `m2`.
spec fn emitted(a: KernelPipeline, b: KernelPipeline, m2: Message) -> bool {
    let n = a.n();
    let q = a.channels.queues()[0];
    let pa = a.sched.procs()[n + 2];
    let pb = b.sched.procs()[n + 2];
    let sa = a.stages@[n + 2];
    let sb = b.stages@[n + 2];
    let region = sa.free_regions@[0];
    let cap = pa.table()[region.0];
    let x = cap.object().id();
    &&& sa.free_regions@.len() > 0
    &&& sa.next_batch < a.config.batches
    &&& b.config == a.config
    &&& b.kernel.wf()
    &&& b.kernel.next_id() == a.kernel.next_id()
    &&& b.kernel.epochs() == a.kernel.epochs().insert(x, (a.kernel.epochs()[x] + 1) as u64)
    &&& b.memory.wf()
    &&& b.memory.regions() == a.memory.regions().insert(
        x,
        batch_bytes(a.config.seed, sa.next_batch, a.memory.regions()[x].len()),
    )
    &&& b.channels.queues() == a.channels.queues().insert(0, q.push(m2))
    &&& msg_batch(m2) == sa.next_batch
    &&& m2.capabilities@.len() == 1
    &&& m2.capabilities@[0].object() == cap.object()
    &&& m2.capabilities@[0].rights() == cap.rights()
    &&& m2.capabilities@[0].epoch() == cap.epoch() + 1
    &&& m2.stamp.lamport() == pb.clock_state().time()
    &&& b.sched.wf()
    &&& b.sched.ready() == a.sched.ready()
    &&& b.sched.next_pid() == a.sched.next_pid()
    &&& b.sched.procs() == a.sched.procs().update(n + 2, pb)
    &&& pb.table() == pa.table().remove(region.0)
    &&& pb.next_handle() == pa.next_handle()
    &&& pb.clock_state().time() == pa.clock_state().time() + 1
    &&& b.stages@.len() == a.stages@.len()
    &&& forall|k: int| 0 <= k < a.stages@.len() && k != n + 2 ==> #[trigger] b.stages@[k] == a.stages@[k]
    &&& sb.pid == sa.pid
    &&& sb.role == sa.role
    &&& sb.input == sa.input
    &&& sb.output == sa.output
    &&& sb.next_batch == sa.next_batch + 1
    &&& sb.free_regions@ == sa.free_regions@.drop_first()
}

/// The producer's move, counted: every returned region back in the pool
/// (`mid`), then, when there is a batch left and a region for it, one batch
/// sent (`sent`).
proof fn lemma_producer_counts(c0: FlowCounts, mid: FlowCounts, c1: FlowCounts, n: int, b: int, sent: bool)
    requires
        n >= 0,
        c0.ret >= 0,
        mid == (FlowCounts { ret: 0, free: c0.free + c0.ret, ..c0 }),
        sent <==> (mid.next < b && mid.free > 0),
        sent ==> c1 == (FlowCounts {
            lens: mid.lens.update(0, mid.lens[0] + 1),
            free: mid.free - 1,
            next: mid.next + 1,
            ..mid
        }),
        !sent ==> c1 == mid,
    ensures
        flow_turn(c0, n + 2, n, b) == (c1, c0.ret > 0 || sent),
{
    let f = c0.free + c0.ret;
    assert(!(n + 2 == 0) && !(n + 2 == 1) && !(n + 2 <= n + 1));
    if sent {
        assert(flow_turn(c0, n + 2, n, b) == (
            FlowCounts { lens: c0.lens.update(0, c0.lens[0] + 1), ret: 0, free: f - 1, next: c0.next + 1, ..c0 },
            true,
        ));
    } else if c0.ret > 0 {
        assert(flow_turn(c0, n + 2, n, b) == (FlowCounts { ret: 0, free: f, ..c0 }, true));
    } else {
        assert(mid == c0);
        assert(flow_turn(c0, n + 2, n, b) == (c0, false));
    }
}

impl KernelPipeline {
    /// Emitting a batch: one more message on channel 0, one region fewer
    /// free, the next batch advanced.
    proof fn lemma_emit_counts(a: KernelPipeline, b: KernelPipeline, m2: Message, done: int)
        requires
            pipeline_fits(a.config),
            emitted(a, b, m2),
        ensures
            b.counts(done) == (FlowCounts {
                lens: a.counts(done).lens.update(0, a.counts(done).lens[0] + 1),
                free: a.counts(done).free - 1,
                next: a.counts(done).next + 1,
                ..a.counts(done)
            }),
    {
        let n = a.n();
        assert(b.qs() =~= a.qs().update(0, a.qs()[0].push(m2)));
        assert(b.counts(done).lens =~= a.counts(done).lens.update(0, a.counts(done).lens[0] + 1));
        assert(b.ret() == a.ret());
    }
}

impl KernelPipeline {
    /// Taking back a returned region keeps the invariant and decreases what
    /// is left to do.
    #[verifier::spinoff_prover]
    #[verifier::rlimit(60)]
    proof fn lemma_drain_inv(a: KernelPipeline, b: KernelPipeline, m: Message, done: int, stats: Stats)
        requires
            a.inv(done, stats),
            drained(a, b, m),
        ensures
            b.inv(done, stats),
            b.phi() == a.phi() - 1,
            b.qs() == a.qs(),
            b.next_batch() == a.next_batch(),
            b.ret() == a.ret().drop_first(),
            b.free() == a.free().push(Handle(a.sched.procs()[a.n() + 2].next_handle())),
    {
        let n = a.n();
        let e = a.bound(done, stats);
        let e2 = b.bound(done, stats);
        let pa = a.sched.procs()[n + 2];
        let nh = pa.next_handle();
        let c = m.capabilities@[0];
        a.lemma_inv_facts(done, stats);
        a.lemma_regions_distinct(done, stats);
        assert(b.qs() =~= a.qs());
        assert(b.ret() =~= a.ret().drop_first());
        assert(a.msg_ok(m, e));
        assert(e2 == e + 1);
        pa.lemma_wf();
        assert(!pa.table().contains_key(nh));
        // Shape.
        assert forall|k: int| 0 <= k < n + 3 implies #[trigger] stage_shape(b.stages@[k], k, n) by {
            assert(stage_shape(a.stages@[k], k, n));
        }
        assert(a.channels.queues().contains_key((n + 1) as u64));
        assert(b.channels.queues().dom() =~= a.channels.queues().dom());
        assert(b.inv_shape());
        // Tables.
        assert forall|s: int| 0 <= s <= n + 1 implies (#[trigger] b.table_at(s)) == a.table_at(s) by {
            assert(b.sched.procs()[s] == a.sched.procs()[s]);
        }
        let fa = a.free();
        let fb = b.free();
        assert(fb == fa.push(Handle(nh)));
        assert(b.free_ids() =~= a.free_ids().push(msg_region(m))) by {
            assert forall|j: int| 0 <= j < fa.len() implies b.table_at(n + 2)[fa[j].0] == a.table_at(n + 2)[fa[j].0] by {
                assert(a.table_at(n + 2).contains_key(fa[j].0));
            }
        }
        assert forall|i: int| 0 <= i < n implies {
            &&& view_of(#[trigger] b.table_at(n + 1 - i)[0], i, Rights::READ())
            &&& view_of(b.table_at(n + 1 - i)[1], i + 1, Rights::WRITE())
            &&& b.sched.procs()[n + 1 - i].next_handle() == 2 + b.next_batch() - flat(
                b.qs(),
                (i + 1) as nat,
                batch_fn(),
            ).len()
        } by {
            assert(view_of(a.table_at(n + 1 - i)[0], i, Rights::READ()));
            assert(b.sched.procs()[n + 1 - i] == a.sched.procs()[n + 1 - i]);
        }
        assert(b.sched.procs()[1] == a.sched.procs()[1]);
        assert(b.table_at(n + 2).dom() =~= producer_handles(fb)) by {
            assert forall|h: u32| #[trigger] b.table_at(n + 2).contains_key(h) <==> (h < 2 || fb.contains(Handle(h))) by {
                if fb.contains(Handle(h)) && h != nh {
                    let j = choose|j: int| 0 <= j < fb.len() && fb[j] == Handle(h);
                    assert(fa[j] == Handle(h));
                }
                if fa.contains(Handle(h)) {
                    let j = choose|j: int| 0 <= j < fa.len() && fa[j] == Handle(h);
                    assert(fb[j] == Handle(h));
                }
                if h == nh {
                    assert(fb[fa.len() as int] == Handle(h));
                }
            }
        }
        assert(fb.no_duplicates()) by {
            assert forall|x: int, y: int| 0 <= x < y < fb.len() implies fb[x] != fb[y] by {
                if y == fa.len() {
                    assert(a.table_at(n + 2).contains_key(fa[x].0));
                }
            }
        }
        assert forall|j: int| 0 <= j < fb.len() implies (#[trigger] fb[j]).0 >= 2 by {
            if j < fa.len() {
                assert(fb[j] == fa[j]);
            }
        }
        assert forall|j: int| 0 <= j < fb.len() implies b.live_region(b.table_at(n + 2)[(#[trigger] fb[j]).0]) by {
            if j < fa.len() {
                assert(fb[j] == fa[j]);
                assert(a.live_region(a.table_at(n + 2)[fa[j].0]));
                assert(a.table_at(n + 2).contains_key(fa[j].0));
            } else {
                assert(fb[j] == Handle(nh));
            }
        }
        assert forall|k: int| 0 <= k < n + 3 implies (#[trigger] b.sched.procs()[k]).clock_state().time() <= e2 by {
            assert(a.sched.procs()[k].clock_state().time() <= e);
        }
        assert(b.inv_tables(done, stats));
        // Flow.
        assert forall|k: int, j: int| 0 <= k <= n && 0 <= j < b.qs()[k].len() implies b.msg_ok(#[trigger] b.qs()[k][j], e2)
            && b.carried(b.qs()[k][j], k) by {
            assert(a.msg_ok(a.qs()[k][j], e));
        }
        assert forall|j: int| 0 <= j < b.ret().len() implies b.msg_ok(#[trigger] b.ret()[j], e2)
            && b.memory.regions()[msg_region(b.ret()[j])].len() == b.config.region_size by {
            assert(b.ret()[j] == a.ret()[j + 1]);
            assert(a.msg_ok(a.ret()[j + 1], e));
        }
        assert forall|j: int| 0 <= j < fb.len() implies b.memory.regions()[#[trigger] b.free_ids()[j]].len()
            == b.config.region_size by {
            if j < fa.len() {
                assert(b.free_ids()[j] == a.free_ids()[j]);
            } else {
                assert(a.msg_ok(a.ret()[0], e));
            }
        }
        assert(b.all_regions() =~= a.all_regions());
        assert(b.inv_flow(done, stats));
    }
}

impl KernelPipeline {
    /// Sending the next batch keeps the invariant, with one more message,
    /// and decreases what is left to do.
    #[verifier::spinoff_prover]
    #[verifier::rlimit(60)]
    proof fn lemma_emit_inv(a: KernelPipeline, b: KernelPipeline, m2: Message, done: int, stats: Stats)
        requires
            a.inv(done, stats),
            emitted(a, b, m2),
            stats.messages + 1 <= u64::MAX,
            stats.bytes_processed + a.config.region_size <= u64::MAX,
        ensures
            b.inv(
                done,
                Stats {
                    messages: (stats.messages + 1) as u64,
                    bytes_processed: (stats.bytes_processed + a.config.region_size) as u64,
                    ..stats
                },
            ),
            b.phi() < a.phi(),
    {
        let n = a.n();
        let stats2 = Stats {
            messages: (stats.messages + 1) as u64,
            bytes_processed: (stats.bytes_processed + a.config.region_size) as u64,
            ..stats
        };
        let e = a.bound(done, stats);
        let e2 = b.bound(done, stats2);
        let qa = a.qs();
        let fa = a.free();
        let fb = b.free();
        let pt = a.table_at(n + 2);
        let region = fa[0];
        let cap = pt[region.0];
        let x = cap.object().id();
        let nb = a.next_batch();
        a.lemma_inv_facts(done, stats);
        a.lemma_regions_distinct(done, stats);
        assert(b.qs() =~= qa.update(0, qa[0].push(m2)));
        assert(b.ret() == a.ret());
        assert(e2 == e + 2);
        assert(a.live_region(cap));
        assert(a.free_ids()[0] == x);
        assert(a.rest_regions()[0] == x);
        // Shape.
        assert forall|k: int| 0 <= k < n + 3 implies #[trigger] stage_shape(b.stages@[k], k, n) by {
            assert(stage_shape(a.stages@[k], k, n));
        }
        assert(a.channels.queues().contains_key(0));
        assert(b.channels.queues().dom() =~= a.channels.queues().dom());
        assert(b.kernel.epochs().dom() =~= a.kernel.epochs().dom());
        assert(b.memory.regions().dom() =~= a.memory.regions().dom());
        assert forall|id: u64| #[trigger] b.kernel.epochs().contains_key(id) <==> id < n + 2 + b.config.pool by {
            assert(a.kernel.epochs().contains_key(id) <==> id < n + 2 + a.config.pool);
        }
        assert forall|id: u64| id < n + 2 implies #[trigger] b.kernel.epochs()[id] == 0 by {
            assert(a.kernel.epochs()[id] == 0);
        }
        assert(b.inv_shape());
        // Tables.
        assert forall|s: int| 0 <= s <= n + 1 implies (#[trigger] b.table_at(s)) == a.table_at(s) by {
            assert(b.sched.procs()[s] == a.sched.procs()[s]);
        }
        assert(fb == fa.drop_first());
        assert forall|j: int| 0 <= j < fb.len() implies fb[j].0 != region.0 && b.table_at(n + 2)[(#[trigger] fb[j]).0]
            == pt[fb[j].0] by {
            assert(fb[j] == fa[j + 1]);
        }
        assert(b.free_ids() =~= a.free_ids().drop_first());
        lemma_flat_push(qa, m2, (n + 1) as nat, batch_fn());
        lemma_flat_push(qa, m2, (n + 1) as nat, region_fn());
        assert(batch_fn()(m2) == nb);
        assert(b.next_batch() == nb + 1);
        assert(flat(b.qs(), (n + 1) as nat, batch_fn()) =~= batch_range(done, nb + 1));
        assert forall|i: int| 0 <= i < n implies {
            &&& view_of(#[trigger] b.table_at(n + 1 - i)[0], i, Rights::READ())
            &&& view_of(b.table_at(n + 1 - i)[1], i + 1, Rights::WRITE())
            &&& b.sched.procs()[n + 1 - i].next_handle() == 2 + b.next_batch() - flat(
                b.qs(),
                (i + 1) as nat,
                batch_fn(),
            ).len()
        } by {
            assert(view_of(a.table_at(n + 1 - i)[0], i, Rights::READ()));
            assert(b.sched.procs()[n + 1 - i] == a.sched.procs()[n + 1 - i]);
            lemma_flat_len_update(qa, 0, qa[0].push(m2), (i + 1) as nat, batch_fn());
        }
        assert(b.sched.procs()[1] == a.sched.procs()[1]);
        assert(b.table_at(n + 2).dom() =~= producer_handles(fb)) by {
            assert forall|h: u32| #[trigger] b.table_at(n + 2).contains_key(h) <==> (h < 2 || fb.contains(Handle(h))) by {
                if fb.contains(Handle(h)) {
                    let j = choose|j: int| 0 <= j < fb.len() && fb[j] == Handle(h);
                    assert(fa[j + 1] == Handle(h));
                }
                if fa.contains(Handle(h)) && h != region.0 {
                    let j = choose|j: int| 0 <= j < fa.len() && fa[j] == Handle(h);
                    assert(j != 0);
                    assert(fb[j - 1] == Handle(h));
                }
            }
        }
        assert(fb.no_duplicates()) by {
            assert forall|p: int, r: int| 0 <= p < r < fb.len() implies fb[p] != fb[r] by {
                assert(fb[p] == fa[p + 1] && fb[r] == fa[r + 1]);
            }
        }
        assert forall|j: int| 0 <= j < fb.len() implies (#[trigger] fb[j]).0 >= 2 by {
            assert(fb[j] == fa[j + 1]);
        }
        assert forall|j: int| 0 <= j < fb.len() implies b.live_region(b.table_at(n + 2)[(#[trigger] fb[j]).0]) by {
            assert(fb[j] == fa[j + 1]);
            assert(a.live_region(pt[fa[j + 1].0]));
            assert(a.rest_regions()[j + 1] == a.free_ids()[j + 1]);
        }
        assert forall|k: int| 0 <= k < n + 3 implies (#[trigger] b.sched.procs()[k]).clock_state().time() <= e2 by {
            assert(a.sched.procs()[k].clock_state().time() <= e);
        }
        assert(b.inv_tables(done, stats2));
        // Flow.
        assert(a.memory.regions()[x].len() == a.config.region_size) by {
            assert(a.free_ids()[0] == x);
        }
        assert(after_stages(batch_bytes(a.config.seed, nb, a.config.region_size as nat), 0) == batch_bytes(
            a.config.seed,
            nb,
            a.config.region_size as nat,
        ));
        assert forall|k: int, j: int| 0 <= k <= n && 0 <= j < b.qs()[k].len() implies b.msg_ok(#[trigger] b.qs()[k][j], e2)
            && b.carried(b.qs()[k][j], k) by {
            if k == 0 && j == qa[0].len() {
                assert(b.qs()[k][j] == m2);
            } else {
                assert(b.qs()[k][j] == qa[k][j]);
                assert(a.msg_ok(qa[k][j], e) && a.carried(qa[k][j], k));
                assert(msg_region(qa[k][j]) != a.rest_regions()[0]);
            }
        }
        assert forall|j: int| 0 <= j < b.ret().len() implies b.msg_ok(#[trigger] b.ret()[j], e2)
            && b.memory.regions()[msg_region(b.ret()[j])].len() == b.config.region_size by {
            assert(a.msg_ok(a.ret()[j], e));
            assert(a.rest_regions()[fa.len() + j] == msg_region(a.ret()[j]));
        }
        assert forall|j: int| 0 <= j < fb.len() implies b.memory.regions()[#[trigger] b.free_ids()[j]].len()
            == b.config.region_size by {
            assert(b.free_ids()[j] == a.free_ids()[j + 1]);
            assert(a.rest_regions()[j + 1] == a.free_ids()[j + 1]);
        }
        assert(b.all_regions() =~= a.all_regions());
        assert forall|id: u64| b.is_region(id as int) implies #[trigger] b.kernel.epochs()[id] <= stats2.messages + 1 by {
            assert(a.kernel.epochs()[id] <= stats.messages + 1);
        }
        lemma_hops_update(qa, 0, qa[0].push(m2), (n + 1) as nat, n + 1);
        let d = a.config.batches - nb;
        assert((d - 1) * (n + 2) == d * (n + 2) - (n + 2)) by (nonlinear_arith);
        let rr = a.config.region_size as int;
        let mm = stats.messages as int;
        assert((mm + 1) * rr == mm * rr + rr) by (nonlinear_arith);
        assert(b.inv_flow(done, stats2));
    }
}

impl KernelPipeline {
    /// The producer's turn: take back every returned region, then fill the
    /// oldest free one with the next batch and send it, if a batch is left.
    /// Answers whether it did anything.
    #[verifier::spinoff_prover]
    #[verifier::rlimit(100)]
    fn producer_turn(&mut self, report: &mut PipelineReport) -> (r: Result<bool, PipelineError>)
        requires
            old(self).inv(old(report).results@.len() as int, old(report).stats),
            results_ok(old(self).config, old(report).results@),
            old(self).config.trace ==> old(self).trace_ok(old(report).trace@, old(report).results@.len() as int),
        ensures
            forall|e0: Map<u64, u64>, f0: Seq<u64>| old(self).moved_ok(e0, f0) ==> #[trigger] final(self).moved_ok(e0, f0),
            final(self).config.trace ==> final(self).trace_ok(final(report).trace@, final(report).results@.len() as int),
            r == Ok::<bool, PipelineError>(!old(self).idle_at(old(self).config.stages + 2)),
            final(self).config == old(self).config,
            final(self).sched.ready() == old(self).sched.ready(),
            final(report).results@ == old(report).results@,
            final(report).stats.scheduler_turns == old(report).stats.scheduler_turns,
            final(report).stats.idle_turns == old(report).stats.idle_turns,
            !old(self).config.trace ==> final(report).trace@ == old(report).trace@,
            final(self).inv(final(report).results@.len() as int, final(report).stats),
            old(self).idle_at(old(self).config.stages + 2) ==> final(self).same_flow(*old(self))
                && final(report).stats == old(report).stats,
            !old(self).idle_at(old(self).config.stages + 2) ==> final(self).phi() < old(self).phi(),
            flow_turn(
                old(self).counts(old(report).results@.len() as int),
                old(self).config.stages + 2,
                old(self).config.stages as int,
                old(self).config.batches as int,
            ) == (final(self).counts(final(report).results@.len() as int), !old(self).idle_at(old(self).config.stages + 2)),
    {
        let ghost s0 = *self;
        let ghost done = report.results@.len() as int;
        let ghost stats = report.stats;
        let ghost n = self.n();
        let index = self.config.stages + 2;
        proof {
            self.lemma_inv_facts(done, stats);
            assert(stage_shape(self.stages@[index as int], index as int, n));
        }
        let pid = self.stages[index].pid;
        let role = self.stages[index].role;
        let input = self.stages[index].input.expect("producer input");
        let mut progressed = false;
        let mut more = true;
        while more
            invariant
                self.inv(done, stats),
                done == report.results@.len(),
                stats == report.stats,
                report.results@ == old(report).results@,
                report.stats == old(report).stats,
                !old(self).config.trace ==> report.trace@ == old(report).trace@,
                self.config == s0.config,
                s0 == *old(self),
                self.sched.ready() == s0.sched.ready(),
                n == self.n(),
                index == n + 2,
                pid == ProcessId(index as u64),
                role == Role::Producer,
                input == Handle(1),
                self.qs() == s0.qs(),
                self.next_batch() == s0.next_batch(),
                !progressed ==> self.same_flow(s0) && self.phi() == s0.phi(),
                progressed ==> self.phi() < s0.phi(),
                progressed ==> s0.ret().len() > 0,
                !more ==> self.ret().len() == 0,
                self.ret().len() + self.free().len() == s0.ret().len() + s0.free().len(),
                self.config.trace ==> self.trace_ok(report.trace@, done),
                forall|e0: Map<u64, u64>, f0: Seq<u64>| s0.moved_ok(e0, f0) ==> #[trigger] self.moved_ok(e0, f0),
                progressed == (self.ret().len() < s0.ret().len()),
            decreases self.ret().len() + (if more { 1int } else { 0int }),
        {
            let ghost a = *self;
            let ghost e = self.bound(done, stats);
            proof {
                self.lemma_inv_facts(done, stats);
                assert(self.kernel.epochs()[(n + 1) as u64] == 0);
                assert(self.channels.queues().contains_key((n + 1) as u64));
                if self.ret().len() > 0 {
                    assert(self.msg_ok(self.ret()[0], e));
                }
            }
            match self.receive_at(pid, input, Ghost((n + 1) as u64)) {
                Ok(Some(d)) => {
                    let ghost m = a.ret()[0];
                    let ghost nh = a.sched.procs()[index as int].next_handle();
                    if d.handles.len() == 0 {
                        return Err(PipelineError::MissingRegion);
                    }
                    let region = d.handles[0];
                    self.stages[index].free_regions.push_back(region);
                    let ghost t_before = report.trace@;
                    let ghost r_stamp = d.received_at;
                    trace(report, self.config.trace, role, Action::Receive, d.data as u64, d.received_at);
                    progressed = true;
                    proof {
                        assert(drained(a, *self, m));
                        KernelPipeline::lemma_drain_inv(a, *self, m, done, stats);
                        if self.config.trace {
                            KernelPipeline::lemma_drain_trace(a, *self, m, t_before, r_stamp, done, stats);
                        }
                        assert forall|e0: Map<u64, u64>, f0: Seq<u64>| s0.moved_ok(e0, f0) implies #[trigger] self.moved_ok(e0, f0) by {
                            assert(a.moved_ok(e0, f0));
                            KernelPipeline::lemma_drain_moved(a, *self, m, done, stats, e0, f0);
                        }
                    }
                },
                Ok(None) => {
                    more = false;
                    proof {
                        KernelPipeline::lemma_inv_same(a, *self, done, stats);
                        assert(self.table_at(n + 2) == a.table_at(n + 2));
                        assert forall|e0: Map<u64, u64>, f0: Seq<u64>| s0.moved_ok(e0, f0) implies #[trigger] self.moved_ok(e0, f0) by {
                            assert(a.moved_ok(e0, f0));
                            assert(self.free_ids() == a.free_ids());
                        }
                    }
                },
                Err(e) => {
                    return Err(e);
                },
            }
        }
        let ghost mid = *self;
        let ghost mut emitted_one = false;
        if self.stages[index].next_batch < self.config.batches && self.stages[index].free_regions.len() > 0 {
            let ghost a = *self;
            let region = self.stages[index].free_regions.pop_front().unwrap();
            {
                {
                    let ghost e = a.bound(done, stats);
                    let ghost pt = a.table_at(index as int);
                    proof {
                        a.lemma_inv_facts(done, stats);
                        assert(stage_shape(a.stages@[index as int], index as int, n));
                        assert(self.stages@[index as int].output == Some(Handle(0)));
                        assert(pt.contains_key(0));
                        assert(region == a.free()[0]);
                        assert(pt.contains_key(region.0)) by {
                            assert(a.free().contains(region));
                        }
                        assert(a.live_region(pt[region.0]));
                        assert(a.memory.regions().contains_key(pt[region.0].object().id()));
                        assert(a.kernel.epochs()[0] == 0);
                        assert(a.channels.queues().contains_key(0));
                        let q = a.qs();
                        assert(a.psi() >= 1) by {
                            let dd = a.config.batches - a.next_batch();
                            assert(dd * (n + 2) >= n + 2) by (nonlinear_arith)
                                requires
                                    dd >= 1,
                                    n >= 0,
                            ;
                            lemma_hops_nonneg(q, (n + 1) as nat, n + 1);
                        }
                        let b = a.config.batches as int;
                        let rr = a.config.region_size as int;
                        let mm = stats.messages as int;
                        let x = b * (n + 2);
                        assert((mm + 1) * rr <= x * rr && (mm + 1) * rr == mm * rr + rr) by (nonlinear_arith)
                            requires
                                mm + 1 <= x,
                                rr >= 0,
                        ;
                        assert(x * rr == b * (n + 2) * rr) by (nonlinear_arith)
                            requires
                                x == b * (n + 2),
                        ;
                        assert(self.sched == a.sched);
                    }
                    let batch = self.stages[index].next_batch;
                    let region_cap = cap_of(&self.sched, pid, region);
                    match self.fill_region(&region_cap, batch) {
                        Ok(()) => {},
                        Err(e) => {
                            return Err(e);
                        },
                    }
                    report.stats.bytes_processed = report.stats.bytes_processed + self.config.region_size as u64;
                    let output = self.stages[index].output.expect("producer output");
                    proof {
                        assert(view_of(pt[0], 0, Rights::WRITE()));
                    }
                    let sent = match self.send_at(pid, output, region, batch as i64, Ghost(0u64)) {
                        Ok(st) => st,
                        Err(e) => {
                            return Err(e);
                        },
                    };
                    report.stats.messages = report.stats.messages + 1;
                    let ghost t_before = report.trace@;
                    let ghost s_stamp = sent;
                    trace(report, self.config.trace, role, Action::Send, batch, sent);
                    self.stages[index].next_batch = batch + 1;
                    progressed = true;
                    proof {
                        let m2 = self.channels.queues()[0].last();
                        assert(((batch as i64) as u64) == batch) by (bit_vector);
                        assert(self.stages@[index as int].free_regions@ == a.free().drop_first());
                        assert(emitted(a, *self, m2));
                        KernelPipeline::lemma_emit_inv(a, *self, m2, done, stats);
                        KernelPipeline::lemma_emit_counts(a, *self, m2, done);
                        if self.config.trace {
                            KernelPipeline::lemma_emit_trace(a, *self, m2, t_before, s_stamp, done, stats);
                        }
                        assert forall|e0: Map<u64, u64>, f0: Seq<u64>| s0.moved_ok(e0, f0) implies #[trigger] self.moved_ok(e0, f0) by {
                            assert(a.moved_ok(e0, f0));
                            KernelPipeline::lemma_emit_moved(a, *self, m2, done, stats, e0, f0);
                        }
                        emitted_one = true;
                    }
                }
            }
        }
        proof {
            lemma_producer_counts(s0.counts(done), mid.counts(done), self.counts(done), n, self.config.batches as int, emitted_one);
        }
        Ok(progressed)
    }
}

/// The index of the first stage run by `pid`.
fn position_of(stages: &Vec<Stage>, pid: ProcessId) -> (r: Option<usize>)
    ensures
        r matches Some(i) ==> i < stages@.len() && stages@[i as int].pid == pid && forall|j: int|
            0 <= j < i ==> (#[trigger] stages@[j]).pid != pid,
        r is None ==> forall|j: int| 0 <= j < stages@.len() ==> (#[trigger] stages@[j]).pid != pid,
{
    let mut i: usize = 0;
    while i < stages.len()
        invariant
            i <= stages@.len(),
            forall|j: int| 0 <= j < i ==> (#[trigger] stages@[j]).pid != pid,
        decreases stages@.len() - i,
    {
        if stages[i].pid == pid {
            return Some(i);
        }
        i = i + 1;
    }
    None
}

/// The process that plays `role` in a pipeline with `n` transformers.
pub open spec fn role_process(n: int, role: Role) -> Option<ProcessId> {
    match role {
        Role::Supervisor => Some(ProcessId(0)),
        Role::Sink => Some(ProcessId(1)),
        Role::Transformer(i) => if i < n {
            Some(ProcessId((n + 1 - i) as u64))
        } else {
            None
        },
        Role::Producer => Some(ProcessId((n + 2) as u64)),
    }
}

impl KernelPipeline {
    /// Every stage is where spawn order put it, with the handles its role
    /// needs.
    pub closed spec fn stages_ok(&self) -> bool {
        &&& self.stages@.len() == self.n() + 3
        &&& forall|s: int| 0 <= s < self.n() + 3 ==> #[trigger] stage_shape(self.stages@[s], s, self.n())
    }

    /// One turn for the stage at `index`. Answers whether it did anything.
    fn step(&mut self, index: usize, report: &mut PipelineReport) -> (r: Result<bool, PipelineError>)
        requires
            old(self).inv(old(report).results@.len() as int, old(report).stats),
            results_ok(old(self).config, old(report).results@),
            index < old(self).config.stages + 3,
            old(self).config.trace ==> old(self).trace_ok(old(report).trace@, old(report).results@.len() as int),
        ensures
            forall|e0: Map<u64, u64>, f0: Seq<u64>| old(self).moved_ok(e0, f0) ==> #[trigger] final(self).moved_ok(e0, f0),
            final(self).config.trace ==> final(self).trace_ok(final(report).trace@, final(report).results@.len() as int),
            r == Ok::<bool, PipelineError>(!old(self).idle_at(index as int)),
            final(self).config == old(self).config,
            final(self).sched.ready() == old(self).sched.ready(),
            final(report).stats.scheduler_turns == old(report).stats.scheduler_turns,
            final(report).stats.idle_turns == old(report).stats.idle_turns,
            results_ok(final(self).config, final(report).results@),
            !old(self).config.trace ==> final(report).trace@ == old(report).trace@,
            final(self).inv(final(report).results@.len() as int, final(report).stats),
            old(self).idle_at(index as int) ==> final(self).same_flow(*old(self))
                && final(report).results@ == old(report).results@ && final(report).stats == old(report).stats,
            !old(self).idle_at(index as int) ==> final(self).phi() < old(self).phi(),
            flow_turn(
                old(self).counts(old(report).results@.len() as int),
                index as int,
                old(self).config.stages as int,
                old(self).config.batches as int,
            ) == (final(self).counts(final(report).results@.len() as int), !old(self).idle_at(index as int)),
    {
        proof {
            assert(stage_shape(self.stages@[index as int], index as int, self.n()));
        }
        match self.stages[index].role {
            Role::Supervisor => Ok(false),
            Role::Producer => self.producer_turn(report),
            Role::Transformer(_) | Role::Sink => self.relay_turn(index, report),
        }
    }
}

impl KernelPipeline {
    /// The invariant does not depend on the turn counters.
    proof fn lemma_inv_turns(&self, done: int, s1: Stats, s2: Stats)
        requires
            self.inv(done, s1),
            s1.messages == s2.messages,
            s1.bytes_processed == s2.bytes_processed,
        ensures
            self.inv(done, s2),
    {
        assert(self.bound(done, s1) == self.bound(done, s2));
    }

    /// Every stage idle means every batch is done, as long as there is a
    /// region to carry one.
    proof fn lemma_all_idle(&self, done: int, stats: Stats)
        requires
            self.inv(done, stats),
            self.config.pool > 0,
            forall|k: int| 0 <= k < self.n() + 3 ==> #[trigger] self.idle_at(k),
        ensures
            done == self.config.batches,
    {
        let n = self.n();
        let q = self.qs();
        assert forall|k: int| 0 <= k < n + 1 implies (#[trigger] q[k]).len() == 0 by {
            if k == n {
                assert(self.idle_at(1));
            } else {
                assert(self.idle_at(n + 1 - k));
            }
        }
        crate::workload::flow::lemma_flat_len(q, (n + 1) as nat, batch_fn());
        crate::workload::flow::lemma_flat_len(q, (n + 1) as nat, region_fn());
        assert(self.idle_at(n + 2));
        assert(self.all_regions().len() == self.free_ids().len());
    }

    /// With no region to carry a batch, nothing ever moves.
    proof fn lemma_empty_pool_idle(&self, done: int, stats: Stats, t: int)
        requires
            self.inv(done, stats),
            self.config.pool == 0,
            0 <= t < self.n() + 3,
        ensures
            self.idle_at(t),
    {
        let n = self.n();
        let q = self.qs();
        crate::workload::flow::lemma_flat_len(q, (n + 1) as nat, region_fn());
        assert(q[n].len() == 0);
        if 2 <= t <= n + 1 {
            assert(q[n + 1 - t].len() == 0);
        }
    }

    /// Runs a freshly built pipeline to completion: until the sink has
    /// finished every batch. The results are every batch once, in order,
    /// each with its reference checksum; the run stalls only without a
    /// region to carry a batch.
    pub fn run(&mut self) -> (r: Result<PipelineReport, PipelineError>)
        requires
            old(self).fresh(),
        ensures
            final(self).config_spec() == old(self).config_spec(),
            final(self).stages_ok(),
            final(self).ready_to_send(),
            r is Ok <==> (old(self).config_spec().batches == 0 || old(self).config_spec().pool > 0),
            r is Err ==> r == Err::<PipelineReport, PipelineError>(
                PipelineError::Stalled { turns: (old(self).config_spec().stages + 4) as u64 },
            ),
            r matches Ok(rep) ==> {
                let cfg = old(self).config_spec();
                &&& completed_run(cfg, rep.results@, rep.stats)
                &&& !cfg.trace ==> rep.trace@.len() == 0
                &&& cfg.trace ==> trace_complete(cfg, rep.trace@)
            },
            r is Ok && old(self).config_spec().batches >= old(self).config_spec().pool ==> forall|h: u32, req: Rights|
                2 <= h && old(self).sched_spec().procs()[old(self).config_spec().stages + 2].table().contains_key(h)
                    ==> #[trigger] final(self).kernel_spec().check_result(
                    old(self).sched_spec().procs()[old(self).config_spec().stages + 2].table()[h],
                    req,
                ) == Err::<(), crate::capability::CapError>(
                    crate::capability::CapError::Revoked(
                        old(self).sched_spec().procs()[old(self).config_spec().stages + 2].table()[h].object(),
                    ),
                ),
    {
        let mut report = PipelineReport {
            results: Vec::new(),
            trace: Vec::new(),
            stats: Stats { scheduler_turns: 0, idle_turns: 0, messages: 0, bytes_processed: 0 },
        };
        let ghost n = self.n();
        let ghost cfg = self.config;
        let ghost e0 = self.kernel.epochs();
        let ghost f0 = self.free_ids();
        let ghost pt0 = self.table_at(self.n() + 2);
        let ghost free0 = self.free();
        let ghost start = *self;
        let processes = self.stages.len() as u64;
        let mut idle_streak: u64 = 0;
        let ghost mut t: int = 0;
        proof {
            self.lemma_inv_facts(0, report.stats);
            let b = cfg.batches as int;
            assert(self.phi() == 2 * (b * (n + 2))) by {
                crate::workload::flow::lemma_flat_len(self.qs(), (n + 1) as nat, batch_fn());
                crate::workload::flow::lemma_hops_empty(self.qs(), (n + 1) as nat, n + 1);
            }
            assert(self.counts(0) == initial_counts(cfg)) by {
                crate::workload::flow::lemma_flat_len(self.qs(), (n + 1) as nat, batch_fn());
                crate::workload::flow::lemma_flat_len(self.qs(), (n + 1) as nat, region_fn());
                assert(self.counts(0).lens =~= initial_counts(cfg).lens);
                assert(self.free_ids().len() == self.free().len());
            }
            assert(self.moved_ok(e0, f0)) by {
                crate::workload::flow::lemma_flat_len(self.qs(), (n + 1) as nat, batch_fn());
                crate::workload::flow::lemma_flat_len(self.qs(), (n + 1) as nat, region_fn());
                assert(self.all_regions() =~= self.free_ids());
            }
            assert(self.trace_ok(report.trace@, 0)) by {
                crate::workload::flow::lemma_flat_len(self.qs(), (n + 1) as nat, batch_fn());
                assert(self.ret().map_values(batch_fn()) =~= batch_range(0, 0));
            }
            assert(2 * b * (n + 2) == 2 * (b * (n + 2))) by (nonlinear_arith);
        }
        while (report.results.len() as u64) < self.config.batches
            invariant
                self.inv(report.results@.len() as int, report.stats),
                results_ok(self.config, report.results@),
                self.config == cfg,
                cfg == old(self).config,
                n == self.n(),
                processes == n + 3,
                0 <= t < n + 3,
                self.sched.ready() == rotated(n + 3, t),
                idle_streak <= processes,
                forall|k: int|
                    0 <= k < n + 3 && ((t - idle_streak <= k < t) || k >= n + 3 + t - idle_streak)
                        ==> #[trigger] self.idle_at(k),
                report.stats.scheduler_turns <= (2 * cfg.batches * (n + 2) - self.phi()) * (n + 4) + idle_streak,
                report.stats.idle_turns <= report.stats.scheduler_turns,
                cfg.pool == 0 ==> report.stats.scheduler_turns == idle_streak && report.results@.len() == 0,
                !cfg.trace ==> report.trace@.len() == 0,
                cfg.trace ==> self.trace_ok(report.trace@, report.results@.len() as int),
                self.moved_ok(e0, f0),
                report.stats.scheduler_turns + schedule(
                    self.counts(report.results@.len() as int),
                    t,
                    idle_streak as int,
                    n,
                    cfg.batches as int,
                    (turn_budget(cfg) - report.stats.scheduler_turns) as nat,
                ).0 == schedule_stats(cfg).0,
                report.stats.idle_turns + schedule(
                    self.counts(report.results@.len() as int),
                    t,
                    idle_streak as int,
                    n,
                    cfg.batches as int,
                    (turn_budget(cfg) - report.stats.scheduler_turns) as nat,
                ).1 == schedule_stats(cfg).1,
            decreases self.phi(), processes + 1 - idle_streak,
        {
            let ghost before = *self;
            let ghost phi0 = self.phi();
            let ghost done = report.results@.len() as int;
            let ghost fuel0 = (turn_budget(cfg) - report.stats.scheduler_turns) as nat;
            let ghost streak0 = idle_streak as int;
            proof {
                self.lemma_inv_facts(done, report.stats);
                let b = cfg.batches as int;
                let x = 2 * b * (n + 2);
                let p = n + 4;
                assert((x - phi0) * p <= x * p) by (nonlinear_arith)
                    requires
                        phi0 >= 0,
                        p >= 0,
                ;
                assert((x + n + 4) * p >= (x + 1) * p) by (nonlinear_arith)
                    requires
                        n >= 0,
                        p >= 0,
                ;
                assert((x + 1) * p == x * p + p) by (nonlinear_arith);
                assert(self.phi() == 2 * self.psi() + self.ret().len());
                assert(report.stats.scheduler_turns < turn_budget(cfg));
            }
            let ghost t0 = t;
            proof {
                assert(stage_shape(self.stages@[t0], t0, n));
            }
            let pid = self.sched.schedule_next().expect("pipeline has processes");
            proof {
                assert(pid == ProcessId(t as u64));
                assert(self.sched.ready() =~= rotated(n + 3, if t + 1 == n + 3 { 0 } else { t + 1 }));
                t = if t + 1 == n + 3 { 0 } else { t + 1 };
                KernelPipeline::lemma_inv_same(before, *self, done, report.stats);
            }
            let ghost st0 = report.stats;
            report.stats.scheduler_turns = report.stats.scheduler_turns + 1;
            proof {
                self.lemma_inv_turns(done, st0, report.stats);
            }
            let index = position_of(&self.stages, pid).expect("every scheduled process is a stage");
            proof {
                if index != pid.0 {
                    assert(stage_shape(self.stages@[index as int], index as int, n));
                }
                assert(index == pid.0);
                if cfg.pool == 0 {
                    self.lemma_empty_pool_idle(done, report.stats, index as int);
                }
            }
            let ghost mid = *self;
            let progressed = match self.step(index, &mut report) {
                Ok(p) => p,
                Err(e) => {
                    return Err(e);
                },
            };
            proof {
                let b = cfg.batches as int;
                let c0 = before.counts(done);
                assert(mid.counts(done) == c0);
                let r = schedule(
                    self.counts(report.results@.len() as int),
                    t,
                    if progressed { 0 } else { streak0 + 1 },
                    n,
                    b,
                    (fuel0 - 1) as nat,
                );
                assert(fuel0 - 1 == turn_budget(cfg) - report.stats.scheduler_turns);
                assert(c0.done < b);
                if progressed {
                    assert(schedule(c0, t0, streak0, n, b, fuel0) == (r.0 + 1, r.1));
                } else if streak0 + 1 <= n + 3 {
                    assert(self.counts(report.results@.len() as int) == c0);
                    assert(schedule(c0, t0, streak0, n, b, fuel0) == (r.0 + 1, r.1 + 1));
                }
            }
            if progressed {
                proof {
                    let b = cfg.batches as int;
                    let x = 2 * b * (n + 2);
                    let p = n + 4;
                    let phi1 = self.phi();
                    self.lemma_inv_facts(report.results@.len() as int, report.stats);
                    assert((x - phi0) * p + p <= (x - phi1) * p) by (nonlinear_arith)
                        requires
                            phi1 < phi0,
                            p >= 0,
                    ;
                }
                idle_streak = 0;
            } else {
                let ghost st1 = report.stats;
                report.stats.idle_turns = report.stats.idle_turns + 1;
                proof {
                    self.lemma_inv_turns(report.results@.len() as int, st1, report.stats);
                }
                idle_streak = idle_streak + 1;
                if idle_streak > processes {
                    proof {
                        if cfg.pool > 0 {
                            assert forall|k: int| 0 <= k < n + 3 implies #[trigger] self.idle_at(k) by {
                                assert(before.idle_at(k));
                            }
                            self.lemma_all_idle(done, report.stats);
                        }
                    }
                    proof {
                        self.lemma_inv_ready(report.results@.len() as int, report.stats);
                    }
                    return Err(PipelineError::Stalled { turns: report.stats.scheduler_turns });
                }
                proof {
                    assert forall|k: int|
                        0 <= k < n + 3 && ((t - idle_streak <= k < t) || k >= n + 3 + t - idle_streak)
                        implies #[trigger] self.idle_at(k) by {
                        assert(before.idle_at(k));
                    }
                }
            }
        }
        proof {
            let done = report.results@.len() as int;
            let q = self.qs();
            crate::workload::flow::lemma_flat_len(q, (n + 1) as nat, batch_fn());
            crate::workload::flow::lemma_hops_empty(q, (n + 1) as nat, n + 1);
            let b = cfg.batches as int;
            let r = cfg.region_size as int;
            assert(self.next_batch() == b);
            assert((b - self.next_batch()) * (n + 2) == 0) by (nonlinear_arith)
                requires
                    b - self.next_batch() == 0,
            ;
            assert(report.stats.messages == b * (n + 2));
            assert(b * (n + 2) * r == (b * (n + 2)) * r) by (nonlinear_arith);
            self.lemma_inv_ready(done, report.stats);
            if cfg.trace {
                lemma_trace_complete(cfg, report.trace@, self.qs(), self.ret());
            }
            if cfg.batches >= cfg.pool {
                assert forall|h: u32, req: Rights| 2 <= h && pt0.contains_key(h) implies #[trigger] self.kernel.check_result(
                    pt0[h],
                    req,
                ) == Err::<(), crate::capability::CapError>(crate::capability::CapError::Revoked(pt0[h].object())) by {
                    assert(producer_handles(free0).contains(h));
                    let j = choose|j: int| 0 <= j < free0.len() && free0[j] == Handle(h);
                    assert(f0[j] == pt0[free0[j].0].object().id());
                    assert(start.live_region(pt0[free0[j].0]));
                    assert(self.kernel.epochs()[f0[j]] > e0[f0[j]]);
                    assert(self.kernel.epochs().contains_key(f0[j]));
                }
            }
        }
        Ok(report)
    }
}

/// Every stage but the supervisor and the producer holds exactly a
/// receive-only view under handle 0 and a send-only view under handle 1;
/// the producer holds a send-only view under 0 and a receive-only one
/// under 1.
pub open spec fn least_privilege(sched: Scheduler, n: int) -> bool {
    &&& forall|s: int|
        1 <= s <= n + 1 ==> {
            &&& (#[trigger] sched.procs()[s]).table().dom() == handles_below(2)
            &&& sched.procs()[s].table()[0].rights() == Rights::READ()
            &&& sched.procs()[s].table()[1].rights() == Rights::WRITE()
        }
    &&& sched.procs()[n + 2].table()[0].rights() == Rights::WRITE()
    &&& sched.procs()[n + 2].table()[1].rights() == Rights::READ()
}

impl KernelPipeline {
    /// Every process can take one more event, and every object one more
    /// epoch.
    pub closed spec fn ready_to_send(&self) -> bool {
        &&& self.sched.wf()
        &&& self.sched.procs().len() == self.n() + 3
        &&& self.kernel.wf()
        &&& forall|s: int| 0 <= s < self.sched.procs().len() ==> (#[trigger] self.sched.procs()[s]).clock_state().time() < u64::MAX
        &&& forall|id: u64| #[trigger] self.kernel.epochs().contains_key(id) ==> self.kernel.epochs()[id] < u64::MAX
    }

    proof fn lemma_inv_ready(&self, done: int, stats: Stats)
        requires
            self.inv(done, stats),
        ensures
            self.ready_to_send(),
            self.stages_ok(),
            least_privilege(self.sched, self.n()),
    {
        self.lemma_inv_facts(done, stats);
        assert forall|id: u64| #[trigger] self.kernel.epochs().contains_key(id) implies self.kernel.epochs()[id] < u64::MAX by {
            if id >= self.n() + 2 {
                assert(self.is_region(id as int));
            }
        }
        assert forall|s: int| 1 <= s <= self.n() + 1 implies {
            &&& (#[trigger] self.sched.procs()[s]).table().dom() == handles_below(2)
            &&& self.sched.procs()[s].table()[0].rights() == Rights::READ()
            &&& self.sched.procs()[s].table()[1].rights() == Rights::WRITE()
        } by {
            assert(self.table_at(s).dom() == handles_below(2));
            if s >= 2 {
                let i = self.n() + 1 - s;
                assert(view_of(self.table_at(self.n() + 1 - i)[0], i, Rights::READ()));
            }
        }
    }

    /// Boots and checks: what `new` leaves is ready to run and to probe.
    pub proof fn lemma_fresh(&self)
        requires
            self.fresh(),
        ensures
            self.stages_ok(),
            self.ready_to_send(),
            least_privilege(self.sched_spec(), self.config_spec().stages as int),
            forall|s: int|
                1 <= s <= self.config_spec().stages + 2 ==> {
                    &&& self.kernel_spec().is_live(#[trigger] self.sched_spec().procs()[s].table()[0])
                    &&& self.kernel_spec().is_live(self.sched_spec().procs()[s].table()[1])
                },
    {
        self.lemma_inv_ready(0, Stats { scheduler_turns: 0, idle_turns: 0, messages: 0, bytes_processed: 0 });
        let n = self.n();
        assert forall|s: int| 1 <= s <= n + 2 implies {
            &&& self.kernel.is_live(#[trigger] self.sched.procs()[s].table()[0])
            &&& self.kernel.is_live(self.sched.procs()[s].table()[1])
        } by {
            if 2 <= s <= n + 1 {
                let i = n + 1 - s;
                assert(view_of(self.table_at(n + 1 - i)[0], i, Rights::READ()));
            }
        }
    }

    pub fn kernel(&self) -> (k: &Kernel)
        ensures
            *k == self.kernel_spec(),
    {
        &self.kernel
    }

    pub fn scheduler(&self) -> (s: &Scheduler)
        ensures
            *s == self.sched_spec(),
    {
        &self.sched
    }

    pub fn memory(&self) -> (m: &RegionRegistry)
        ensures
            *m == self.memory_spec(),
    {
        &self.memory
    }

    pub closed spec fn channels_spec(&self) -> ChannelRegistry {
        self.channels
    }

    /// The process playing `role`, if this pipeline has one.
    pub fn process_of(&self, role: Role) -> (r: Option<ProcessId>)
        requires
            self.stages_ok(),
        ensures
            r == role_process(self.config_spec().stages as int, role),
    {
        let ghost n = self.n();
        let mut i: usize = 0;
        while i < self.stages.len()
            invariant
                self.stages_ok(),
                n == self.n(),
                i <= self.stages@.len(),
                forall|j: int| 0 <= j < i ==> (#[trigger] self.stages@[j]).role != role,
            decreases self.stages@.len() - i,
        {
            proof {
                assert(stage_shape(self.stages@[i as int], i as int, n));
            }
            if self.stages[i].role == role {
                return Some(self.stages[i].pid);
            }
            i = i + 1;
        }
        proof {
            match role {
                Role::Supervisor => {
                    assert(stage_shape(self.stages@[0], 0, n));
                },
                Role::Sink => {
                    assert(stage_shape(self.stages@[1], 1, n));
                },
                Role::Transformer(k) => {
                    if k < n {
                        assert(stage_shape(self.stages@[n + 1 - k], n + 1 - k, n));
                    }
                },
                Role::Producer => {
                    assert(stage_shape(self.stages@[n + 2], n + 2, n));
                },
            }
        }
        None
    }

    /// Attempts a send on `channel` as the process playing `role`, with that
    /// process's own table as the grant source: for probing that least
    /// privilege holds. The pipeline itself never calls it.
    pub fn try_send_as(&mut self, role: Role, channel: &Capability, grants: Vec<Grant>, data: i64) -> (r:
        Result<Stamp, PipelineError>)
        requires
            old(self).stages_ok(),
            old(self).ready_to_send(),
            role_process(old(self).config_spec().stages as int, role) is Some,
        ensures
            final(self).stages_ok(),
            final(self).config_spec() == old(self).config_spec(),
            ({
                let pid = role_process(old(self).config_spec().stages as int, role)->Some_0;
                let refusal = crate::ipc::send_refusal(
                    old(self).kernel_spec(),
                    old(self).channels_spec().queues(),
                    *channel,
                    old(self).sched_spec().procs()[pid.0 as int].table(),
                    grants@,
                );
                &&& r is Err <==> refusal is Some
                &&& r is Err ==> r == Err::<Stamp, PipelineError>(PipelineError::Ipc(refusal->Some_0))
            }),
            r is Err ==> final(self).kernel_spec() == old(self).kernel_spec() && final(self).sched_spec().procs()
                == old(self).sched_spec().procs() && final(self).channels_spec().queues()
                == old(self).channels_spec().queues() && final(self).ready_to_send(),
            final(self).memory_spec() == old(self).memory_spec(),
            r is Ok ==> {
                let pid = role_process(old(self).config_spec().stages as int, role)->Some_0;
                let pa = old(self).sched_spec().procs()[pid.0 as int];
                let pb = final(self).sched_spec().procs()[pid.0 as int];
                let resolved = resolve_spec(old(self).kernel_spec(), pa.table(), grants@)->Ok_0;
                let id = channel.object().id();
                let q0 = old(self).channels_spec().queues();
                let q1 = final(self).channels_spec().queues();
                &&& final(self).kernel_spec().next_id() == old(self).kernel_spec().next_id()
                &&& moves_bumped(old(self).kernel_spec().epochs(), final(self).kernel_spec().epochs(), grants@, resolved)
                &&& final(self).sched_spec().procs() == old(self).sched_spec().procs().update(pid.0 as int, pb)
                &&& pb.table() == pa.table().remove_keys(leaving_handles(grants@))
                &&& pb.next_handle() == pa.next_handle()
                &&& pb.id() == pa.id()
                &&& crate::process::table::local_step(pa.clock_state(), pb.clock_state())
                &&& pb.clock_state().stamps_now(r->Ok_0)
                &&& q1.dom() == q0.dom()
                &&& q1[id].len() == q0[id].len() + 1
                &&& q1[id].drop_last() == q0[id]
                &&& crate::ipc::carries(q1[id].last(), data, grants@, resolved, r->Ok_0)
                &&& forall|k: u64| k != id && #[trigger] q0.contains_key(k) ==> q1[k] == q0[k]
            },
    {
        let ghost s0 = *self;
        let pid = self.process_of(role).expect("role exists in this pipeline");
        proof {
            self.sched.lemma_wf();
            assert(stage_shape(self.stages@[pid.0 as int], pid.0 as int, self.n()));
            let t = self.sched.procs()[pid.0 as int].table();
            assert forall|i: int|
                0 <= i < grants@.len() && (#[trigger] grants@[i]) is Move && t.contains_key(
                    grant_handle(grants@[i]).0,
                ) implies self.kernel.can_bump(t[grant_handle(grants@[i]).0].object()) by {}
        }
        let proc = self.sched.process_mut(pid).expect("exists");
        let res = self.channels.send(&mut self.kernel, channel, proc, grants, data);
        proof {
            Scheduler::lemma_update_wf(s0.sched, self.sched, pid.0 as int, self.sched.procs()[pid.0 as int]);
        }
        match res {
            Ok(stamp) => Ok(stamp),
            Err(e) => {
                proof {
                    assert(self.sched.procs() =~= s0.sched.procs());
                }
                Err(PipelineError::Ipc(e))
            },
        }
    }
}

/// Builds a pipeline and runs it to completion.
pub fn run_kernel_pipeline(config: PipelineConfig) -> (r: Result<PipelineReport, PipelineError>)
    requires
        pipeline_fits(config),
    ensures
        r is Ok <==> (config.batches == 0 || config.pool > 0),
        r is Err ==> r == Err::<PipelineReport, PipelineError>(
            PipelineError::Stalled { turns: (config.stages + 4) as u64 },
        ),
        r matches Ok(rep) ==> {
            &&& completed_run(config, rep.results@, rep.stats)
            &&& !config.trace ==> rep.trace@.len() == 0
            &&& config.trace ==> trace_complete(config, rep.trace@)
        },
{
    let mut p = match KernelPipeline::new(config) {
        Ok(p) => p,
        Err(e) => {
            return Err(e);
        },
    };
    p.run()
}

} // verus!
