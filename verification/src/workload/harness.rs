//! The chaos harness itself: a kernel, a scheduler, the channel and region
//! registries, and the shadow model that predicts them, driven one
//! generated operation at a time and audited after every step.
use vstd::prelude::*;

use crate::capability::{CapError, Capability, Kernel, ObjectId};
use crate::clock::{
    causally_precedes, clock_stamped, last_before, merged_count, merged_time, previous_at, receives_earlier, stamped_execution,
    Causality,
};
use crate::ipc::{carries, granted, ChannelRegistry, IpcError, Message};
use crate::memory::{access_check, MemoryError, RegionRegistry};
use crate::process::transfer::{leaving_handles, moves_bumped, moves_can_bump, resolve_spec};
use crate::process::{Grant, Handle, Process, ProcessId, Scheduler, Stamp};
use crate::rights::Rights;
use crate::workload::chaos::{
    batch_ok, bytes_mirrored, find_handle, generate, grants_model, held_models, held_of, kept_by, law_model_follows_grants,
    law_model_predicts_access, law_model_predicts_check, law_model_predicts_delivery, law_model_predicts_destroy,
    law_model_predicts_grants, lemma_model_prefix_objects, mirrors, model_resolve, takes_out, to_grants_spec, model_object, model_wf, obj_known, objects_distinct, predict_access,
    predict_check, predicted_access, predicted_check, table_has,
    table_sorted, to_grants, op_fits, CapModel, ChaosConfig, ChaosModel, ChaosSummary, Fault, GrantKind, Obj, Op, OpView,
    ChaosModelView, Pick, RegionModel, CHANNELS, MAX_PROCESSES,
};
use crate::workload::rng::SplitMix64;

verus! {

broadcast use crate::rights::group_rights_bits;

/// Where the kernel and the shadow model disagreed, or the run could not go
/// on.
#[derive(Debug, PartialEq, Eq)]
pub enum Mismatch {
    /// A process the model tracks is missing from the scheduler.
    MissingProcess { process: usize },
    /// A handle the model holds is missing from the process's table.
    MissingHandle { process: usize, handle: Handle },
    /// A process holds no capability to the channel.
    MissingChannel { process: usize, channel: usize },
    /// A counter of the kernel or the model reached its limit.
    Exhausted,
    /// The kernel and the model disagree on whether a spawn succeeds.
    Spawn { kernel_ok: bool, model_ok: bool },
    /// The child got another number of handles than the model predicts.
    ChildHandles { kernel: usize, model: usize },
    /// The kernel and the model disagree on whether a send succeeds.
    Send { kernel_ok: bool, model_ok: bool },
    /// A receive failed outright.
    ReceiveFailed(IpcError),
    /// The kernel and the model disagree on whether a message arrives.
    Receive { kernel_delivered: bool, model_expected: bool },
    /// The delivered message carries another send stamp than recorded.
    SendStamp,
    /// The message delivered another number of capabilities.
    DeliveredCaps { kernel: usize, model: usize },
    /// A read answered otherwise than predicted.
    Read { kernel: Result<Vec<u8>, MemoryError>, model: Result<Vec<u8>, MemoryError> },
    /// A write answered otherwise than predicted.
    Write { kernel: Result<(), MemoryError>, model: Result<(), MemoryError> },
    /// A revocation answered otherwise than predicted.
    Revoke { kernel: Result<(), CapError>, model: Result<(), CapError> },
    /// A destruction answered otherwise than predicted.
    Destroy { kernel: Result<(), MemoryError>, model: Result<(), MemoryError> },
    /// A process's handles differ from the mirror.
    Table { process: usize, kernel: Vec<Handle>, model: Vec<Handle> },
    /// A handle holds another capability than the mirror says.
    Entry { process: usize, handle: Handle },
    /// A capability ever seen is live or dead otherwise than predicted.
    Liveness { cap: Capability, kernel: Result<(), CapError>, model: Result<(), CapError> },
    /// The registry holds another number of regions than the model.
    RegionCount { kernel: usize, model: usize },
    /// A region's bytes differ from the model's.
    RegionBytes { region: usize, kernel: Result<Vec<u8>, MemoryError>, model: Vec<u8> },
    /// The vector clocks disagree with the recorded causal graph.
    Causality { earlier: usize, later: usize, truth: bool },
    /// An event does not carry a larger Lamport time than one before it.
    Lamport { earlier: usize, later: usize },
}

/// A failed run: where it failed and what disagreed. `op` is `None` for the
/// end-of-run causality check.
#[derive(Debug, PartialEq, Eq)]
pub struct ChaosFailure {
    pub seed: u64,
    pub steps: usize,
    pub step: usize,
    pub op: Option<Op>,
    pub mismatch: Mismatch,
}

/// The tally slots, in name order.
pub const KIND_DESTROY: usize = 0;
pub const KIND_LOCAL: usize = 1;
pub const KIND_NEW_REGION: usize = 2;
pub const KIND_READ: usize = 3;
pub const KIND_RECEIVE: usize = 4;
pub const KIND_REVOKE: usize = 5;
pub const KIND_SEND: usize = 6;
pub const KIND_SPAWN: usize = 7;
pub const KIND_WRITE: usize = 8;

/// A kernel, its scheduler and registries, and the shadow model that
/// predicts them.
pub struct World {
    k: Kernel,
    sched: Scheduler,
    chans: ChannelRegistry,
    mem: RegionRegistry,
    model: ChaosModel,
    pids: Vec<ProcessId>,
    /// Per channel, the messages in flight: the send event and the models
    /// of the capabilities carried.
    in_flight: Vec<Vec<(usize, Vec<CapModel>)>>,
    /// Every capability any process ever held, with the model of it.
    stash: Vec<(Capability, CapModel)>,
    stamps: Vec<Stamp>,
    /// Per recorded event, its process and the event whose message it
    /// received.
    trace: Ghost<Seq<(ProcessId, Option<int>)>>,
    preds: Vec<Vec<usize>>,
    last_event: Vec<Option<usize>>,
    tallies: Vec<(u64, u64)>,
    stale_refused: u64,
    log: u64,
}

impl World {
    /// What the harness relies on to run without failing on its own.
    pub closed spec fn wf(&self) -> bool {
        &&& self.k.wf()
        &&& self.sched.wf()
        &&& self.mem.wf()
        &&& self.model.wf()
        &&& self.model.channels@.len() == CHANNELS
        &&& self.model.tables@.len() == self.pids@.len()
        &&& self.last_event@.len() == self.pids@.len()
        &&& 1 <= self.pids@.len() <= MAX_PROCESSES
        &&& self.in_flight@.len() == CHANNELS
        &&& forall|i: int|
            0 <= i < self.stash@.len() ==> obj_known(
                self.model.regions@,
                self.model.channels@,
                (#[trigger] self.stash@[i]).1.obj,
            )
        &&& forall|c: int, i: int|
            0 <= c < CHANNELS && 0 <= i < self.in_flight@[c]@.len() ==> {
                &&& (#[trigger] self.in_flight@[c]@[i]).0 < self.stamps@.len()
                &&& forall|j: int|
                    0 <= j < self.in_flight@[c]@[i].1@.len() ==> obj_known(
                        self.model.regions@,
                        self.model.channels@,
                        (#[trigger] self.in_flight@[c]@[i].1@[j]).obj,
                    )
            }
        &&& self.preds@.len() == self.stamps@.len()
        &&& forall|i: int, j: int|
            0 <= i < self.preds@.len() && 0 <= j < self.preds@[i]@.len() ==> #[trigger] self.preds@[i]@[j] < i
        &&& forall|p: int|
            0 <= p < self.last_event@.len() && (#[trigger] self.last_event@[p]) is Some ==> self.last_event@[p]->Some_0
                < self.stamps@.len()
        &&& self.tallies@.len() == 9
    }

    /// Every counter of the run can still count one more.
    pub closed spec fn counters_below(&self, bound: int) -> bool {
        &&& forall|i: int| 0 <= i < self.tallies@.len() ==> (#[trigger] self.tallies@[i]).0 < bound && self.tallies@[i].1 < bound
        &&& self.stale_refused < bound
    }

    /// What the audit finds of process `p`: the scheduler has it, its
    /// handles are exactly the mirror's, and each holds a capability to the
    /// mirrored object with the mirrored rights.
    pub closed spec fn process_audited(&self, p: int) -> bool {
        let t = self.model@.tables[p];
        &&& self.sched.lookup(self.pids@[p]) is Some
        &&& forall|h: u32| #[trigger]
            self.sched.lookup(self.pids@[p])->Some_0.table().contains_key(h) <==> table_has(t, Handle(h))
        &&& forall|i: int|
            0 <= i < t.len() ==> {
                let cap = self.sched.lookup(self.pids@[p])->Some_0.table()[(#[trigger] t[i]).0.0];
                &&& cap.object() == model_object(self.model@.regions, self.model@.channels, t[i].1.obj)
                &&& cap.rights() == t[i].1.rights
            }
    }

    /// What a passing audit establishes: every process's table matches its
    /// mirror; every capability ever seen passes or fails `check` as the
    /// model predicts; the registry holds as many regions as the model has
    /// alive; and every region the model can audit holds the model's bytes.
    pub closed spec fn audited(&self) -> bool {
        &&& forall|p: int| 0 <= p < self.pids@.len() ==> #[trigger] self.process_audited(p)
        &&& forall|i: int|
            0 <= i < self.stash@.len() ==> self.k.check_result((#[trigger] self.stash@[i]).0, Rights::NONE())
                == predicted_check(self.model@.regions, self.model@.channels, self.stash@[i].1, Rights::NONE())
        &&& self.mem.regions().len() == alive_upto(self.model@.regions, self.model@.regions.len())
        &&& forall|r: int|
            0 <= r < self.model@.regions.len() ==> (#[trigger] auditor_upto(
                self.stash@,
                self.model@.regions,
                self.model@.channels,
                r,
                self.stash@.len(),
            ) matches Some(cap) ==> self.region_audited(r, cap))
    }

    /// What a passing audit establishes before it reads any region's bytes:
    /// every table matches its mirror, every capability ever seen is live or
    /// dead as predicted, and the registry holds as many regions as the
    /// model has alive.
    pub closed spec fn audited_but_bytes(&self) -> bool {
        &&& forall|p: int| 0 <= p < self.pids@.len() ==> #[trigger] self.process_audited(p)
        &&& forall|i: int|
            0 <= i < self.stash@.len() ==> self.k.check_result((#[trigger] self.stash@[i]).0, Rights::NONE())
                == predicted_check(self.model@.regions, self.model@.channels, self.stash@[i].1, Rights::NONE())
        &&& self.mem.regions().len() == alive_upto(self.model@.regions, self.model@.regions.len())
    }

    /// What the audit finds of region `r` through capability `cap`: the
    /// registry lets `cap` read the whole region, which holds the model's
    /// bytes.
    pub closed spec fn region_audited(&self, r: int, cap: Capability) -> bool {
        let id = cap.object().id();
        &&& access_check(self.k, self.mem.regions(), cap, Rights::NONE(), 0, 0) is Ok
        &&& access_check(self.k, self.mem.regions(), cap, Rights::READ(), 0, self.mem.regions()[id].len() as usize) is Ok
        &&& self.mem.regions()[id] == self.model@.regions[r].bytes@
    }

    /// Process `p`'s table in the kernel.
    pub closed spec fn ktable(&self, p: int) -> Map<u32, Capability> {
        self.sched.lookup(self.pids@[p])->Some_0.table()
    }

    /// Process `p` exists, holds exactly the mirror's handles, and each
    /// holds a capability the model mirrors.
    pub closed spec fn process_mirrored(&self, p: int) -> bool {
        let t = self.model@.tables[p];
        &&& self.sched.lookup(self.pids@[p]) is Some
        &&& forall|h: u32| #[trigger] self.ktable(p).contains_key(h) <==> table_has(t, Handle(h))
        &&& forall|i: int|
            0 <= i < t.len() ==> mirrors(
                self.k,
                self.model@.regions,
                self.model@.channels,
                self.ktable(p)[(#[trigger] t[i]).0.0],
                t[i].1,
            )
    }

    /// The registry holds region `r` exactly while the model has it alive,
    /// with the model's bytes.
    pub closed spec fn region_mirrored(&self, r: int) -> bool {
        let reg = self.model@.regions[r];
        &&& self.mem.regions().contains_key(reg.object.id()) <==> reg.alive
        &&& reg.alive ==> self.mem.regions()[reg.object.id()] == reg.bytes@
    }

    /// Region `r`'s object exists in the kernel exactly while the model has
    /// it alive, on the model's epoch.
    pub closed spec fn region_epoch_mirrored(&self, r: int) -> bool {
        let reg = self.model@.regions[r];
        &&& self.k.epochs().contains_key(reg.object.id()) <==> reg.alive
        &&& reg.alive ==> self.k.epochs()[reg.object.id()] == reg.epoch
    }

    /// Message `msg` is the one the model has in flight as `f`: sent at the
    /// recorded event, carrying capabilities the model mirrors.
    pub closed spec fn message_mirrored(&self, msg: Message, f: (usize, Vec<CapModel>)) -> bool {
        &&& f.0 < self.stamps@.len()
        &&& crate::ipc::same_stamp(msg.stamp, self.stamps@[f.0 as int])
        &&& msg.capabilities@.len() == f.1@.len()
        &&& f.1@.len() <= 3
        &&& forall|j: int|
            0 <= j < f.1@.len() ==> mirrors(self.k, self.model@.regions, self.model@.channels, #[trigger] msg.capabilities@[j], f.1@[j])
        &&& forall|j: int| 0 <= j < f.1@.len() ==> (#[trigger] f.1@[j]).obj is Region
    }

    /// Channel `c` exists, on epoch 0, and its queue holds exactly the
    /// messages the model has in flight on it, in order.
    pub closed spec fn channel_mirrored(&self, c: int) -> bool {
        let id = self.model@.channels[c].id();
        let q = self.chans.queues()[id];
        &&& self.k.epochs().contains_key(id)
        &&& self.k.epochs()[id] == 0
        &&& self.chans.queues().contains_key(id)
        &&& q.len() == self.in_flight@[c]@.len()
        &&& forall|i: int| 0 <= i < q.len() ==> #[trigger] self.message_mirrored(q[i], self.in_flight@[c]@[i])
    }

    /// Process `p` holds every channel, and each of its channel capabilities
    /// can read, write and grant.
    pub closed spec fn holds_channels(&self, p: int) -> bool {
        let t = self.model@.tables[p];
        &&& forall|c: usize| c < CHANNELS ==> #[trigger] table_holds(t, Obj::Channel(c))
        &&& forall|i: int| 0 <= i < t.len() && (#[trigger] t[i]).1.obj is Channel ==> t[i].1.rights.spec_contains(Rights::from_bits(11))
    }

    /// The model mirrors the kernel, the scheduler and the registry: distinct
    /// positions name distinct objects, all allocated; distinct processes;
    /// every table and every capability ever seen mirrored; every region's
    /// existence and bytes mirrored; and no channel is a region.
    pub closed spec fn mirrored(&self) -> bool {
        let regions = self.model@.regions;
        let channels = self.model@.channels;
        &&& self.wf()
        &&& objects_distinct(regions, channels)
        &&& forall|o: Obj| #[trigger] obj_known(regions, channels, o) ==> model_object(regions, channels, o).id() < self.k.next_id()
        &&& forall|p: int, q: int| 0 <= p < q < self.pids@.len() ==> self.pids@[p] != self.pids@[q]
        &&& forall|p: int| 0 <= p < self.pids@.len() ==> #[trigger] self.process_mirrored(p)
        &&& forall|i: int|
            0 <= i < self.stash@.len() ==> mirrors(self.k, regions, channels, (#[trigger] self.stash@[i]).0, self.stash@[i].1)
        &&& forall|r: int| 0 <= r < regions.len() ==> #[trigger] self.region_mirrored(r)
        &&& forall|c: int| 0 <= c < channels.len() ==> !self.mem.regions().contains_key((#[trigger] channels[c]).id())
        &&& forall|id: u64| #[trigger]
            self.mem.regions().contains_key(id) ==> exists|r: int|
                0 <= r < regions.len() && regions[r].alive && (#[trigger] regions[r].object).id() == id
        &&& forall|r: int| 0 <= r < regions.len() ==> #[trigger] self.region_epoch_mirrored(r)
        &&& forall|c: int| 0 <= c < channels.len() ==> #[trigger] self.channel_mirrored(c)
        &&& forall|p: int| 0 <= p < self.pids@.len() ==> #[trigger] self.holds_channels(p)
    }

    /// Mirroring does not look at the tallies, the log or the recorded
    /// events.
    proof fn lemma_mirrored_frame(a: World, b: World)
        requires
            a.mirrored(),
            b.wf(),
            a.k.epochs() == b.k.epochs(),
            a.k.next_id() == b.k.next_id(),
            forall|q: int| 0 <= q < a.pids@.len() ==> #[trigger] b.same_table(a, q),
            a.mem.regions() == b.mem.regions(),
            a.model@ == b.model@,
            a.pids@ == b.pids@,
            a.stash@ == b.stash@,
            a.chans.queues() == b.chans.queues(),
            a.in_flight@ == b.in_flight@,
            a.stamps@.len() <= b.stamps@.len(),
            forall|i: int| 0 <= i < a.stamps@.len() ==> #[trigger] b.stamps@[i] == a.stamps@[i],
        ensures
            b.mirrored(),
    {
        let regions = a.model@.regions;
        let channels = a.model@.channels;
        assert forall|cap: Capability, c: CapModel| mirrors(a.k, regions, channels, cap, c) implies mirrors(b.k, regions, channels, cap, c) by {
        }
        assert forall|r: int| 0 <= r < regions.len() implies #[trigger] b.region_epoch_mirrored(r) by {
            assert(a.region_epoch_mirrored(r));
        }
        assert forall|c: int| 0 <= c < channels.len() implies #[trigger] b.channel_mirrored(c) by {
            assert(a.channel_mirrored(c));
            let q = b.chans.queues()[channels[c].id()];
            assert forall|i: int| 0 <= i < q.len() implies #[trigger] b.message_mirrored(q[i], b.in_flight@[c]@[i]) by {
                assert(a.message_mirrored(q[i], a.in_flight@[c]@[i]));
            }
        }
        assert forall|p: int| 0 <= p < b.pids@.len() implies #[trigger] b.holds_channels(p) by {
            assert(a.holds_channels(p));
        }
        assert forall|p: int| 0 <= p < b.pids@.len() implies #[trigger] b.process_mirrored(p) by {
            assert(a.process_mirrored(p));
            assert(b.same_table(a, p));
            assert(b.ktable(p) == a.ktable(p));
            let t = b.model@.tables[p];
            assert forall|i: int| 0 <= i < t.len() implies mirrors(b.k, regions, channels, b.ktable(p)[(#[trigger] t[i]).0.0], t[i].1) by {
                assert(mirrors(a.k, regions, channels, a.ktable(p)[t[i].0.0], t[i].1));
            }
        }
        assert forall|i: int| 0 <= i < b.stash@.len() implies mirrors(b.k, regions, channels, (#[trigger] b.stash@[i]).0, b.stash@[i].1) by {
            assert(mirrors(a.k, regions, channels, a.stash@[i].0, a.stash@[i].1));
        }
        assert forall|r: int| 0 <= r < b.model@.regions.len() implies #[trigger] b.region_mirrored(r) by {
            assert(a.region_mirrored(r));
        }
    }

    /// Every channel stays mirrored when its queue, the messages in flight
    /// and the channels' epochs stay, the recorded stamps only grow, and
    /// every mirrored capability stays mirrored.
    proof fn lemma_channels_kept(a: World, b: World)
        requires
            a.mirrored(),
            b.wf(),
            b.model@.channels == a.model@.channels,
            b.chans.queues() == a.chans.queues(),
            b.in_flight@ == a.in_flight@,
            a.stamps@.len() <= b.stamps@.len(),
            forall|i: int| 0 <= i < a.stamps@.len() ==> #[trigger] b.stamps@[i] == a.stamps@[i],
            forall|c: int|
                0 <= c < a.model@.channels.len() ==> b.k.epochs().contains_key(#[trigger] a.model@.channels[c].id())
                    && b.k.epochs()[a.model@.channels[c].id()] == 0,
            forall|cap: Capability, m: CapModel|
                mirrors(a.k, a.model@.regions, a.model@.channels, cap, m) && obj_known(a.model@.regions, a.model@.channels, m.obj)
                    ==> #[trigger] mirrors(b.k, b.model@.regions, b.model@.channels, cap, m),
        ensures
            forall|c: int| 0 <= c < b.model@.channels.len() ==> #[trigger] b.channel_mirrored(c),
    {
        let ch = a.model@.channels;
        assert(a.model.channels.len() == ch.len());
        assert forall|c: int| 0 <= c < ch.len() implies #[trigger] b.channel_mirrored(c) by {
            assert(a.channel_mirrored(c));
            let q = b.chans.queues()[ch[c].id()];
            assert forall|i: int| 0 <= i < q.len() implies #[trigger] b.message_mirrored(q[i], b.in_flight@[c]@[i]) by {
                assert(a.message_mirrored(q[i], a.in_flight@[c]@[i]));
                let f = a.in_flight@[c]@[i];
                assert forall|j: int| 0 <= j < f.1@.len() implies mirrors(b.k, b.model@.regions, ch, #[trigger] q[i].capabilities@[j], f.1@[j]) by {
                    assert(mirrors(a.k, a.model@.regions, ch, q[i].capabilities@[j], f.1@[j]));
                    assert(obj_known(a.model.regions@, a.model.channels@, f.1@[j].obj));
                }
            }
        }
    }

    /// Process `q` exists here and holds the same table as in `other`.
    pub closed spec fn same_table(&self, other: World, q: int) -> bool {
        self.sched.lookup(self.pids@[q]) is Some && self.ktable(q) == other.ktable(q)
    }

    /// Mirroring survives granting `cap`, mirrored by `m`, to process `p`
    /// under a handle its table did not hold, and mirroring it there and in
    /// the stash.
    proof fn lemma_mirrored_granted(a: World, b: World, p: int, handle: Handle, cap: Capability, m: CapModel)
        requires
            a.mirrored(),
            b.wf(),
            mirrors(a.k, a.model@.regions, a.model@.channels, cap, m),
            0 <= p < a.pids@.len(),
            b.k == a.k,
            b.mem.regions() == a.mem.regions(),
            b.model@.regions == a.model@.regions,
            b.model@.channels == a.model@.channels,
            b.pids@ == a.pids@,
            b.stash@ == a.stash@.push((cap, m)),
            forall|q: int| 0 <= q < a.pids@.len() && q != p ==> #[trigger] b.same_table(a, q),
            b.sched.lookup(b.pids@[p]) is Some,
            b.ktable(p) == a.ktable(p).insert(handle.0, cap),
            !a.ktable(p).contains_key(handle.0),
            b.model@.tables == a.model@.tables.update(p, b.model@.tables[p]),
            forall|i: int|
                0 <= i < b.model@.tables[p].len() ==> #[trigger] b.model@.tables[p][i] == (handle, m) || (
                a.model@.tables[p].contains(b.model@.tables[p][i]) && b.model@.tables[p][i].0 != handle),
            forall|x: Handle| #[trigger]
                table_has(b.model@.tables[p], x) <==> (table_has(a.model@.tables[p], x) || x == handle),
            forall|i: int| 0 <= i < a.model@.tables[p].len() ==> b.model@.tables[p].contains(#[trigger] a.model@.tables[p][i]),
            m.obj is Channel ==> m.rights.spec_contains(Rights::from_bits(11)),
            b.chans.queues() == a.chans.queues(),
            b.in_flight@ == a.in_flight@,
            b.stamps@ == a.stamps@,
        ensures
            b.mirrored(),
    {
        let regions = a.model@.regions;
        let channels = a.model@.channels;
        let t0 = a.model@.tables[p];
        let t1 = b.model@.tables[p];
        assert forall|c: int| 0 <= c < a.model@.channels.len() implies b.k.epochs().contains_key(#[trigger] a.model@.channels[c].id())
            && b.k.epochs()[a.model@.channels[c].id()] == 0 by {
            assert(a.channel_mirrored(c));
        }
        Self::lemma_channels_kept(a, b);
        assert forall|q: int| 0 <= q < b.pids@.len() implies #[trigger] b.holds_channels(q) by {
            assert(a.holds_channels(q));
            if q == p {
                assert forall|c: usize| c < CHANNELS implies #[trigger] table_holds(t1, Obj::Channel(c)) by {
                    assert(table_holds(t0, Obj::Channel(c)));
                    let k = choose|k: int| 0 <= k < t0.len() && (#[trigger] t0[k]).1.obj == Obj::Channel(c);
                    assert(t1.contains(t0[k]));
                    let i = choose|i: int| 0 <= i < t1.len() && t1[i] == t0[k];
                    assert(t1[i].1.obj == Obj::Channel(c));
                }
                assert forall|i: int| 0 <= i < t1.len() && (#[trigger] t1[i]).1.obj is Channel implies t1[i].1.rights.spec_contains(Rights::from_bits(11)) by {
                    if t1[i] != (handle, m) {
                        let k = choose|k: int| 0 <= k < t0.len() && t0[k] == t1[i];
                        assert(t0[k].1.obj is Channel);
                    }
                }
            } else {
                assert(b.model@.tables[q] == a.model@.tables[q]);
            }
        }
        assert forall|r: int| 0 <= r < regions.len() implies #[trigger] b.region_epoch_mirrored(r) by {
            assert(a.region_epoch_mirrored(r));
        }
        assert forall|q: int| 0 <= q < b.pids@.len() implies #[trigger] b.process_mirrored(q) by {
            assert(a.process_mirrored(q));
            if q != p {
                assert(b.same_table(a, q));
                assert(b.model@.tables[q] == a.model@.tables[q]);
            } else {
                assert forall|x: u32| #[trigger] b.ktable(q).contains_key(x) <==> table_has(t1, Handle(x)) by {
                    if x == handle.0 {
                        assert(Handle(x) == handle);
                    }
                    assert(table_has(t1, Handle(x)) <==> (table_has(t0, Handle(x)) || Handle(x) == handle));
                }
                assert forall|i: int| 0 <= i < t1.len() implies mirrors(b.k, regions, channels, b.ktable(q)[(#[trigger] t1[i]).0.0], t1[i].1) by {
                    if t1[i] != (handle, m) {
                        assert(t0.contains(t1[i]) && t1[i].0 != handle);
                        let k = choose|k: int| 0 <= k < t0.len() && t0[k] == t1[i];
                        assert(mirrors(a.k, regions, channels, a.ktable(q)[t0[k].0.0], t0[k].1));
                        assert(t1[i].0.0 != handle.0);
                    }
                }
            }
        }
        assert forall|i: int| 0 <= i < b.stash@.len() implies mirrors(b.k, regions, channels, (#[trigger] b.stash@[i]).0, b.stash@[i].1) by {
            if i < a.stash@.len() {
                assert(b.stash@[i] == a.stash@[i]);
            }
        }
        assert forall|r: int| 0 <= r < regions.len() implies #[trigger] b.region_mirrored(r) by {
            assert(a.region_mirrored(r));
        }
        assert forall|id: u64| #[trigger] b.mem.regions().contains_key(id) implies exists|r: int|
            0 <= r < regions.len() && regions[r].alive && (#[trigger] regions[r].object).id() == id by {
            assert(a.mem.regions().contains_key(id));
        }
    }

    /// Mirroring survives process `p` taking the first message off channel
    /// `c`: the registry and the model both drop it, and `p`'s table and the
    /// stash mirror each capability it carried, under the handles from `nh`
    /// on.
    proof fn lemma_mirrored_received(a: World, b: World, p: int, c: int, nh: u32)
        requires
            a.mirrored(),
            b.wf(),
            0 <= p < a.pids@.len(),
            0 <= c < CHANNELS,
            b.k == a.k,
            b.mem.regions() == a.mem.regions(),
            b.model@.regions == a.model@.regions,
            b.model@.channels == a.model@.channels,
            b.pids@ == a.pids@,
            a.in_flight@[c]@.len() > 0,
            b.in_flight@.len() == a.in_flight@.len(),
            b.in_flight@[c]@ == a.in_flight@[c]@.drop_first(),
            forall|x: int| 0 <= x < CHANNELS && x != c ==> #[trigger] b.in_flight@[x] == a.in_flight@[x],
            b.chans.queues() == a.chans.queues().insert(
                a.model@.channels[c].id(),
                a.chans.queues()[a.model@.channels[c].id()].drop_first(),
            ),
            b.sched.lookup(b.pids@[p]) is Some,
            b.ktable(p) == granted(a.ktable(p), nh, a.chans.queues()[a.model@.channels[c].id()][0].capabilities@),
            forall|h: u32| #[trigger] a.ktable(p).contains_key(h) ==> h < nh,
            nh + a.in_flight@[c]@[0].1@.len() < u32::MAX,
            b.stash@ == a.stash@ + Seq::new(
                a.in_flight@[c]@[0].1@.len(),
                |j: int| (a.chans.queues()[a.model@.channels[c].id()][0].capabilities@[j], a.in_flight@[c]@[0].1@[j]),
            ),
            b.model@.tables == a.model@.tables.update(p, b.model@.tables[p]),
            forall|x: Handle| #[trigger]
                table_has(b.model@.tables[p], x) <==> (table_has(a.model@.tables[p], x) || nh <= x.0 < nh
                    + a.in_flight@[c]@[0].1@.len()),
            forall|i: int|
                0 <= i < b.model@.tables[p].len() ==> a.model@.tables[p].contains(#[trigger] b.model@.tables[p][i]) || (nh
                    <= b.model@.tables[p][i].0.0 < nh + a.in_flight@[c]@[0].1@.len() && b.model@.tables[p][i].1
                    == a.in_flight@[c]@[0].1@[b.model@.tables[p][i].0.0 - nh]),
            forall|i: int| 0 <= i < a.model@.tables[p].len() ==> b.model@.tables[p].contains(#[trigger] a.model@.tables[p][i]),
            forall|q: int| 0 <= q < a.pids@.len() && q != p ==> #[trigger] b.same_table(a, q),
            a.stamps@.len() <= b.stamps@.len(),
            forall|i: int| 0 <= i < a.stamps@.len() ==> #[trigger] b.stamps@[i] == a.stamps@[i],
        ensures
            b.mirrored(),
    {
        let regions = a.model@.regions;
        let channels = a.model@.channels;
        let id = channels[c].id();
        let msg = a.chans.queues()[id][0];
        let f = a.in_flight@[c]@[0];
        let n = f.1@.len();
        let t0 = a.model@.tables[p];
        let t1 = b.model@.tables[p];
        assert(a.model.channels.len() == channels.len());
        assert(a.channel_mirrored(c));
        assert(a.message_mirrored(msg, f));
        assert forall|x: int| 0 <= x < channels.len() implies #[trigger] b.channel_mirrored(x) by {
            assert(a.channel_mirrored(x));
            if x != c {
                assert(obj_known(regions, channels, Obj::Channel(x as usize)));
                assert(obj_known(regions, channels, Obj::Channel(c as usize)));
                assert(model_object(regions, channels, Obj::Channel(x as usize)) != model_object(regions, channels, Obj::Channel(c as usize)));
                channels[x].lemma_id_injective(channels[c]);
                assert(b.chans.queues()[channels[x].id()] == a.chans.queues()[channels[x].id()]);
                let q = b.chans.queues()[channels[x].id()];
                assert forall|i: int| 0 <= i < q.len() implies #[trigger] b.message_mirrored(q[i], b.in_flight@[x]@[i]) by {
                    assert(a.message_mirrored(q[i], a.in_flight@[x]@[i]));
                }
            } else {
                let q = b.chans.queues()[id];
                assert forall|i: int| 0 <= i < q.len() implies #[trigger] b.message_mirrored(q[i], b.in_flight@[x]@[i]) by {
                    assert(q[i] == a.chans.queues()[id][i + 1]);
                    assert(b.in_flight@[x]@[i] == a.in_flight@[x]@[i + 1]);
                    assert(a.message_mirrored(a.chans.queues()[id][i + 1], a.in_flight@[x]@[i + 1]));
                }
            }
        }
        assert forall|q: int| 0 <= q < b.pids@.len() implies #[trigger] b.process_mirrored(q) by {
            assert(a.process_mirrored(q));
            if q != p {
                assert(b.same_table(a, q));
                assert(b.model@.tables[q] == a.model@.tables[q]);
            } else {
                assert forall|x: u32| #[trigger] b.ktable(q).contains_key(x) <==> table_has(t1, Handle(x)) by {
                    assert(table_has(t1, Handle(x)) <==> (table_has(t0, Handle(x)) || nh <= x < nh + n));
                    assert(a.ktable(q).contains_key(x) <==> table_has(t0, Handle(x)));
                }
                assert forall|i: int| 0 <= i < t1.len() implies mirrors(b.k, regions, channels, b.ktable(q)[(#[trigger] t1[i]).0.0], t1[i].1) by {
                    if t0.contains(t1[i]) {
                        let k = choose|k: int| 0 <= k < t0.len() && t0[k] == t1[i];
                        assert(mirrors(a.k, regions, channels, a.ktable(q)[t0[k].0.0], t0[k].1));
                        assert(table_has(t0, t0[k].0));
                        assert(Handle(t0[k].0.0) == t0[k].0);
                        assert(a.ktable(q).contains_key(t0[k].0.0));
                        assert(t0[k].0.0 < nh);
                    } else {
                        let j = t1[i].0.0 - nh;
                        assert(b.ktable(q)[t1[i].0.0] == msg.capabilities@[j]);
                        assert(mirrors(a.k, regions, channels, msg.capabilities@[j], f.1@[j]));
                    }
                }
            }
        }
        assert forall|q: int| 0 <= q < b.pids@.len() implies #[trigger] b.holds_channels(q) by {
            assert(a.holds_channels(q));
            if q == p {
                assert forall|cc: usize| cc < CHANNELS implies #[trigger] table_holds(t1, Obj::Channel(cc)) by {
                    assert(table_holds(t0, Obj::Channel(cc)));
                    let k = choose|k: int| 0 <= k < t0.len() && (#[trigger] t0[k]).1.obj == Obj::Channel(cc);
                    assert(t1.contains(t0[k]));
                    let i = choose|i: int| 0 <= i < t1.len() && t1[i] == t0[k];
                    assert(t1[i].1.obj == Obj::Channel(cc));
                }
                assert forall|i: int| 0 <= i < t1.len() && (#[trigger] t1[i]).1.obj is Channel implies t1[i].1.rights.spec_contains(
                    Rights::from_bits(11),
                ) by {
                    if t0.contains(t1[i]) {
                        let k = choose|k: int| 0 <= k < t0.len() && t0[k] == t1[i];
                        assert(t0[k].1.obj is Channel);
                    } else {
                        let j = t1[i].0.0 - nh;
                        assert(f.1@[j].obj is Region);
                    }
                }
            } else {
                assert(b.model@.tables[q] == a.model@.tables[q]);
            }
        }
        assert forall|i: int| 0 <= i < b.stash@.len() implies mirrors(b.k, regions, channels, (#[trigger] b.stash@[i]).0, b.stash@[i].1) by {
            if i < a.stash@.len() {
                assert(b.stash@[i] == a.stash@[i]);
            } else {
                let j = i - a.stash@.len();
                assert(b.stash@[i] == (msg.capabilities@[j], f.1@[j]));
            }
        }
        assert forall|r: int| 0 <= r < regions.len() implies #[trigger] b.region_mirrored(r) by {
            assert(a.region_mirrored(r));
        }
        assert forall|r: int| 0 <= r < regions.len() implies #[trigger] b.region_epoch_mirrored(r) by {
            assert(a.region_epoch_mirrored(r));
        }
        assert forall|x: u64| #[trigger] b.mem.regions().contains_key(x) implies exists|r: int|
            0 <= r < regions.len() && regions[r].alive && (#[trigger] regions[r].object).id() == x by {
            assert(a.mem.regions().contains_key(x));
        }
    }

    /// Where the world is mirrored, so is every batch the model can take:
    /// each grant names a handle of the kernel's table whose capability the
    /// model mirrors.
    proof fn lemma_batch_mirrored(a: World, p: int, gs: Seq<(Handle, GrantKind)>)
        requires
            a.mirrored(),
            0 <= p < a.pids@.len(),
            batch_ok(a.model@, p, gs),
        ensures
            crate::workload::chaos::batch_mirrored(
                a.k,
                a.model@.regions,
                a.model@.channels,
                a.ktable(p),
                held_models(a.model@.tables[p], gs),
                gs,
            ),
    {
        let regions = a.model@.regions;
        let ch = a.model@.channels;
        let t = a.model@.tables[p];
        let table = a.ktable(p);
        let held = held_models(t, gs);
        assert(a.model.tables.len() == a.pids@.len());
        assert(model_wf(a.model@));
        assert(a.process_mirrored(p));
        assert forall|i: int| 0 <= i < gs.len() implies {
            &&& table.contains_key((#[trigger] gs[i]).0.0)
            &&& obj_known(regions, ch, held[i].obj)
            &&& mirrors(a.k, regions, ch, table[gs[i].0.0], held[i])
        } by {
            assert(table_has(t, gs[i].0));
            let j = choose|j: int| 0 <= j < t.len() && (#[trigger] t[j]).0 == gs[i].0;
            lemma_held_of(t, j);
            assert(Handle(gs[i].0.0) == gs[i].0);
            assert(held[i] == held_of(t, gs[i].0));
            assert(mirrors(a.k, regions, ch, table[t[j].0.0], t[j].1));
        }
    }

    /// Mirroring survives process `p` sending batch `gs` on channel `c`:
    /// the kernel bumps the moved objects, the model the moved regions, the
    /// batch's handles leave both tables, and the message joins the queue
    /// as its record `f` joins the model's.
    proof fn lemma_mirrored_sent(
        a: World,
        b: World,
        p: int,
        c: int,
        gs: Seq<(Handle, GrantKind)>,
        msg: Message,
        stamp: Stamp,
        f: (usize, Vec<CapModel>),
    )
        requires
            a.mirrored(),
            b.wf(),
            0 <= p < a.pids@.len(),
            0 <= c < CHANNELS,
            gs.len() < 4,
            batch_ok(a.model@, p, gs),
            resolve_spec(a.k, a.ktable(p), to_grants_spec(gs)) is Ok,
            moves_bumped(a.k.epochs(), b.k.epochs(), to_grants_spec(gs), resolve_spec(a.k, a.ktable(p), to_grants_spec(gs))->Ok_0),
            b.k.next_id() == a.k.next_id(),
            b.model@ == grants_model(a.model@, p, gs).1,
            grants_model(a.model@, p, gs).0 == Some(f.1@),
            b.mem.regions() == a.mem.regions(),
            b.pids@ == a.pids@,
            b.stash@ == a.stash@,
            forall|q: int| 0 <= q < a.pids@.len() && q != p ==> #[trigger] b.same_table(a, q),
            b.sched.lookup(b.pids@[p]) is Some,
            b.ktable(p) == a.ktable(p).remove_keys(leaving_handles(to_grants_spec(gs))),
            b.chans.queues().dom() == a.chans.queues().dom(),
            b.chans.queues()[a.model@.channels[c].id()] == a.chans.queues()[a.model@.channels[c].id()].push(msg),
            forall|k: u64| k != a.model@.channels[c].id() && #[trigger] a.chans.queues().contains_key(k) ==> b.chans.queues()[k]
                == a.chans.queues()[k],
            carries(msg, 0, to_grants_spec(gs), resolve_spec(a.k, a.ktable(p), to_grants_spec(gs))->Ok_0, stamp),
            f.0 == a.stamps@.len(),
            b.stamps@ == a.stamps@.push(stamp),
            b.in_flight@.len() == a.in_flight@.len(),
            b.in_flight@[c]@ == a.in_flight@[c]@.push(f),
            forall|x: int| 0 <= x < CHANNELS && x != c ==> #[trigger] b.in_flight@[x] == a.in_flight@[x],
        ensures
            b.mirrored(),
    {
        broadcast use vstd::seq_lib::group_filter_ensures;

        let regions = a.model@.regions;
        let ch = a.model@.channels;
        let m2 = grants_model(a.model@, p, gs).1;
        let rb = m2.regions;
        let t = a.model@.tables[p];
        let table = a.ktable(p);
        let kgs = to_grants_spec(gs);
        let held = held_models(t, gs);
        let s = resolve_spec(a.k, table, kgs)->Ok_0;
        let id = ch[c].id();
        assert(a.model.channels.len() == ch.len());
        assert(a.model.regions.len() == regions.len());
        assert(model_wf(a.model@));
        assert(a.process_mirrored(p));
        Self::lemma_batch_mirrored(a, p, gs);
        assert forall|cap: Capability, cm: CapModel|
            mirrors(a.k, regions, ch, cap, cm) && obj_known(regions, ch, cm.obj) implies #[trigger] mirrors(b.k, rb, ch, cap, cm) by {
            law_model_follows_grants(a.k, b.k, a.model@, p, table, gs, cap, cm);
        }
        let sm = model_resolve(regions, ch, held, gs)->Some_0;
        lemma_model_prefix_objects(regions, ch, held, gs, gs.len());
        assert(rb.len() == regions.len());
        assert forall|x: int| 0 <= x < regions.len() implies (#[trigger] rb[x]).object == regions[x].object && rb[x].alive
            == regions[x].alive && rb[x].bytes == regions[x].bytes by {
        }
        // Region epochs, through a ghost capability on each region.
        assert forall|x: int| 0 <= x < rb.len() implies #[trigger] b.region_epoch_mirrored(x) by {
            assert(a.region_epoch_mirrored(x));
            let cm = CapModel { obj: Obj::Region(x as usize), rights: Rights::from_bits(0), epoch: regions[x].epoch };
            let fc = Capability::ghost_of(regions[x].object, Rights::from_bits(0), regions[x].epoch);
            assert(obj_known(regions, ch, cm.obj));
            assert(mirrors(a.k, regions, ch, fc, cm));
            assert(mirrors(b.k, rb, ch, fc, cm));
        }
        // Channel epochs, through a ghost capability on each channel.
        assert forall|x: int| 0 <= x < ch.len() implies b.k.epochs().contains_key(#[trigger] ch[x].id()) && b.k.epochs()[ch[x].id()] == 0 by {
            assert(a.channel_mirrored(x));
            let cm = CapModel { obj: Obj::Channel(x as usize), rights: Rights::from_bits(0), epoch: 0 };
            let fc = Capability::ghost_of(ch[x], Rights::from_bits(0), 0);
            assert(obj_known(regions, ch, cm.obj));
            assert(mirrors(a.k, regions, ch, fc, cm));
            assert(mirrors(b.k, rb, ch, fc, cm));
        }
        // What the message carries is modelled by what the model delivers.
        law_model_predicts_delivery(a.k, a.model@, p, table, gs, msg.capabilities@);
        assert forall|j: int| 0 <= j < f.1@.len() implies mirrors(b.k, rb, ch, #[trigger] msg.capabilities@[j], f.1@[j]) && f.1@[j].obj is Region by {
            assert(crate::workload::chaos::models(rb, ch, msg.capabilities@[j], f.1@[j]));
            assert(sm[j].obj == held[j].obj);
            assert(held[j] == held_of(t, gs[j].0));
            assert(f.1@[j].obj == sm[j].obj);
            let r = f.1@[j].obj->Region_0 as int;
            assert(obj_known(rb, ch, f.1@[j].obj));
            assert(b.region_epoch_mirrored(r));
        }
        assert forall|x: int| 0 <= x < ch.len() implies #[trigger] b.channel_mirrored(x) by {
            assert(a.channel_mirrored(x));
            let qa = a.chans.queues()[ch[x].id()];
            let q = b.chans.queues()[ch[x].id()];
            if x != c {
                assert(obj_known(regions, ch, Obj::Channel(x as usize)));
                assert(obj_known(regions, ch, Obj::Channel(c as usize)));
                assert(model_object(regions, ch, Obj::Channel(x as usize)) != model_object(regions, ch, Obj::Channel(c as usize)));
                ch[x].lemma_id_injective(ch[c]);
                assert(q == qa);
            }
            assert forall|i: int| 0 <= i < q.len() implies #[trigger] b.message_mirrored(q[i], b.in_flight@[x]@[i]) by {
                if i < qa.len() {
                    assert(q[i] == qa[i]);
                    assert(b.in_flight@[x]@[i] == a.in_flight@[x]@[i]);
                    let fa = a.in_flight@[x]@[i];
                    assert(a.message_mirrored(qa[i], fa));
                    assert forall|j: int| 0 <= j < fa.1@.len() implies mirrors(b.k, rb, ch, #[trigger] qa[i].capabilities@[j], fa.1@[j]) by {
                        assert(mirrors(a.k, regions, ch, qa[i].capabilities@[j], fa.1@[j]));
                        assert(obj_known(a.model.regions@, a.model.channels@, fa.1@[j].obj));
                    }
                } else {
                    assert(x == c);
                    assert(q[i] == msg);
                    assert(b.in_flight@[x]@[i] == f);
                    assert(b.stamps@[f.0 as int] == stamp);
                }
            }
        }
        assert forall|q: int|
            #![trigger b.process_mirrored(q)]
            #![trigger b.holds_channels(q)]
            0 <= q < b.pids@.len() implies b.process_mirrored(q) && b.holds_channels(q) by {
            assert(a.process_mirrored(q));
            assert(a.holds_channels(q));
            if q != p {
                assert(b.same_table(a, q));
                assert(b.model@.tables[q] == a.model@.tables[q]);
                let tq = b.model@.tables[q];
                assert forall|i: int| 0 <= i < tq.len() implies mirrors(b.k, rb, ch, b.ktable(q)[(#[trigger] tq[i]).0.0], tq[i].1) by {
                    assert(mirrors(a.k, regions, ch, a.ktable(q)[tq[i].0.0], tq[i].1));
                    assert(obj_known(regions, ch, tq[i].1.obj));
                }
            } else {
                let t1 = b.model@.tables[p];
                assert(t1 == t.filter(kept_by(gs)));
                crate::workload::chaos::lemma_filter_sorted(t, kept_by(gs));
                let fc = Capability::ghost_of(ch[0], Rights::from_bits(0), 0);
                assert(a.channel_mirrored(0));
                assert(obj_known(regions, ch, Obj::Channel(0)));
                law_model_follows_grants(a.k, b.k, a.model@, p, table, gs, fc, CapModel { obj: Obj::Channel(0), rights: Rights::from_bits(0), epoch: 0 });
                assert forall|h: u32| #[trigger] b.ktable(q).contains_key(h) <==> table_has(t1, Handle(h)) by {
                }
                assert forall|i: int| 0 <= i < t1.len() implies mirrors(b.k, rb, ch, b.ktable(q)[(#[trigger] t1[i]).0.0], t1[i].1) by {
                    assert(t.contains(t1[i]));
                    let k = choose|k: int| 0 <= k < t.len() && t[k] == t1[i];
                    assert(mirrors(a.k, regions, ch, table[t[k].0.0], t[k].1));
                    assert(obj_known(regions, ch, t[k].1.obj));
                    assert(table_has(t1, t1[i].0));
                    assert(Handle(t1[i].0.0) == t1[i].0);
                    assert(b.ktable(q).contains_key(t1[i].0.0));
                    assert(b.ktable(q)[t1[i].0.0] == table[t1[i].0.0]);
                }
                assert forall|cc: usize| cc < CHANNELS implies #[trigger] table_holds(t1, Obj::Channel(cc)) by {
                    assert(table_holds(t, Obj::Channel(cc)));
                    let k = choose|k: int| 0 <= k < t.len() && (#[trigger] t[k]).1.obj == Obj::Channel(cc);
                    if takes_out(gs, t[k].0) {
                        let i = choose|i: int| 0 <= i < gs.len() && !((#[trigger] gs[i]).1 is Derive) && gs[i].0 == t[k].0;
                        lemma_held_of(t, k);
                        assert(held_of(t, gs[i].0).obj is Region);
                    }
                    assert(kept_by(gs)(t[k]));
                    assert(t1.contains(t[k]));
                    let i = choose|i: int| 0 <= i < t1.len() && t1[i] == t[k];
                    assert(t1[i].1.obj == Obj::Channel(cc));
                }
                assert forall|i: int| 0 <= i < t1.len() && (#[trigger] t1[i]).1.obj is Channel implies t1[i].1.rights.spec_contains(
                    Rights::from_bits(11),
                ) by {
                    assert(t.contains(t1[i]));
                    let k = choose|k: int| 0 <= k < t.len() && t[k] == t1[i];
                    assert(t[k].1.obj is Channel);
                }
            }
        }
        assert forall|i: int| 0 <= i < b.stash@.len() implies mirrors(b.k, rb, ch, (#[trigger] b.stash@[i]).0, b.stash@[i].1) by {
            assert(mirrors(a.k, regions, ch, a.stash@[i].0, a.stash@[i].1));
            assert(obj_known(a.model.regions@, a.model.channels@, a.stash@[i].1.obj));
        }
        assert forall|x: int| 0 <= x < rb.len() implies #[trigger] b.region_mirrored(x) by {
            assert(a.region_mirrored(x));
        }
        assert forall|o: Obj| obj_known(rb, ch, o) implies model_object(rb, ch, o) == model_object(regions, ch, o) by {
        }
        assert forall|o: Obj| #[trigger] obj_known(rb, ch, o) implies model_object(rb, ch, o).id() < b.k.next_id() by {
            assert(obj_known(regions, ch, o));
            assert(model_object(rb, ch, o) == model_object(regions, ch, o));
        }
        assert(objects_distinct(rb, ch));
        assert forall|x: u64| #[trigger] b.mem.regions().contains_key(x) implies exists|r: int|
            0 <= r < rb.len() && rb[r].alive && (#[trigger] rb[r].object).id() == x by {
            assert(a.mem.regions().contains_key(x));
            let r = choose|r: int| 0 <= r < regions.len() && regions[r].alive && (#[trigger] regions[r].object).id() == x;
            assert(rb[r].object == regions[r].object);
        }
    }

    /// Where the world is mirrored, a spawn's batch, led by a derive of each
    /// channel the parent holds, resolves exactly when the batch alone does.
    proof fn lemma_spawn_batch(a: World, p: int, gs: Seq<(Handle, GrantKind)>, pre: Seq<Grant>)
        requires
            a.mirrored(),
            0 <= p < a.pids@.len(),
            batch_ok(a.model@, p, gs),
            pre.len() == CHANNELS,
            forall|x: int|
                0 <= x < CHANNELS ==> (#[trigger] pre[x]) is Derive && pre[x]->Derive_1 == Rights::from_bits(11) && exists|i: int|
                    0 <= i < a.model@.tables[p].len() && (#[trigger] a.model@.tables[p][i]).0 == pre[x]->Derive_0
                        && a.model@.tables[p][i].1.obj == Obj::Channel(x as usize),
        ensures
            ({
                let table = a.ktable(p);
                let kgs = to_grants_spec(gs);
                let all = pre + kgs;
                let head = Seq::new(pre.len(), |i: int| crate::process::transfer::resolve_one(a.k, table, pre[i])->Ok_0);
                &&& forall|x: int| 0 <= x < pre.len() ==> crate::process::transfer::resolve_one(a.k, table, #[trigger] pre[x]) is Ok
                &&& resolve_spec(a.k, table, all) is Ok <==> resolve_spec(a.k, table, kgs) is Ok
                &&& resolve_spec(a.k, table, kgs) is Ok ==> resolve_spec(a.k, table, all)->Ok_0 == head + resolve_spec(a.k, table, kgs)->Ok_0
                &&& leaving_handles(all) == leaving_handles(kgs)
                &&& resolve_spec(a.k, table, kgs) is Ok ==> forall|id: u64|
                    crate::process::transfer::moved_object(all, head + resolve_spec(a.k, table, kgs)->Ok_0, id)
                        <==> crate::process::transfer::moved_object(kgs, resolve_spec(a.k, table, kgs)->Ok_0, id)
            }),
    {
        let regions = a.model@.regions;
        let ch = a.model@.channels;
        let t = a.model@.tables[p];
        let table = a.ktable(p);
        let kgs = to_grants_spec(gs);
        let held = held_models(t, gs);
        assert(a.model.channels.len() == ch.len());
        assert(model_wf(a.model@));
        assert(a.process_mirrored(p));
        assert(a.holds_channels(p));
        Self::lemma_batch_mirrored(a, p, gs);
        // The derives resolve, on channel objects no grant of the batch names.
        assert forall|x: int| 0 <= x < pre.len() implies (#[trigger] pre[x]) is Derive && crate::process::transfer::resolve_one(a.k, table, pre[x]) is Ok by {
            let i = choose|i: int| 0 <= i < t.len() && (#[trigger] t[i]).0 == pre[x]->Derive_0 && t[i].1.obj == Obj::Channel(x as usize);
            assert(table_has(t, t[i].0));
            assert(Handle(t[i].0.0) == t[i].0);
            let cap = table[t[i].0.0];
            assert(mirrors(a.k, regions, ch, cap, t[i].1));
            assert(t[i].1.rights.spec_contains(Rights::from_bits(11)));
            let bb = cap.rights().bits();
            assert(bb & 11u32 == 11u32 ==> bb & 8u32 == 8u32) by (bit_vector);
            assert(Rights::GRANT().bits() == 8);
            assert(a.k.check_result(cap, Rights::GRANT()) is Ok);
        }
        assert forall|x: int, j: int|
            0 <= x < pre.len() && 0 <= j < kgs.len() && table.contains_key(
                crate::process::transfer::grant_handle(kgs[j]).0,
            ) implies table[crate::process::transfer::grant_handle(#[trigger] pre[x]).0].object() != table[crate::process::transfer::grant_handle(
            #[trigger] kgs[j],
        ).0].object() by {
            let i = choose|i: int| 0 <= i < t.len() && (#[trigger] t[i]).0 == pre[x]->Derive_0 && t[i].1.obj == Obj::Channel(x as usize);
            assert(mirrors(a.k, regions, ch, table[t[i].0.0], t[i].1));
            assert(kgs[j] == crate::workload::chaos::to_grant(gs[j]));
            assert(crate::process::transfer::grant_handle(kgs[j]) == gs[j].0);
            assert(mirrors(a.k, regions, ch, table[gs[j].0.0], held[j]));
            assert(held[j].obj is Region);
            assert(obj_known(regions, ch, held[j].obj));
            assert(obj_known(regions, ch, Obj::Channel(x as usize)));
        }
        crate::process::transfer::lemma_resolve_after_derives(a.k, table, pre, kgs);
    }

    /// Mirroring survives process `p` spawning a child with a capability to
    /// each channel, derived by `pre`, and batch `gs`: the kernel bumps the
    /// moved objects, the model the moved regions, the batch's handles leave
    /// both parent tables, and the child's table, mirrored by `tc`, holds the
    /// derived capabilities and then what the batch delivers.
    proof fn lemma_mirrored_spawned(
        a: World,
        b: World,
        p: int,
        gs: Seq<(Handle, GrantKind)>,
        pre: Seq<Grant>,
        tc: Seq<(Handle, CapModel)>,
        child: ProcessId,
    )
        requires
            a.mirrored(),
            b.wf(),
            0 <= p < a.pids@.len(),
            gs.len() < 4,
            batch_ok(a.model@, p, gs),
            pre.len() == CHANNELS,
            forall|x: int|
                0 <= x < CHANNELS ==> (#[trigger] pre[x]) is Derive && pre[x]->Derive_1 == Rights::from_bits(11) && exists|i: int|
                    0 <= i < a.model@.tables[p].len() && (#[trigger] a.model@.tables[p][i]).0 == pre[x]->Derive_0
                        && a.model@.tables[p][i].1.obj == Obj::Channel(x as usize),
            resolve_spec(a.k, a.ktable(p), pre + to_grants_spec(gs)) is Ok,
            moves_bumped(
                a.k.epochs(),
                b.k.epochs(),
                pre + to_grants_spec(gs),
                resolve_spec(a.k, a.ktable(p), pre + to_grants_spec(gs))->Ok_0,
            ),
            b.k.next_id() == a.k.next_id(),
            grants_model(a.model@, p, gs).0 is Some,
            b.model@.regions == grants_model(a.model@, p, gs).1.regions,
            b.model@.channels == a.model@.channels,
            b.model@.tables == grants_model(a.model@, p, gs).1.tables.push(tc),
            tc.len() == CHANNELS + gs.len(),
            forall|i: int|
                0 <= i < tc.len() ==> #[trigger] tc[i] == (Handle(i as u32), if i < CHANNELS {
                    CapModel { obj: Obj::Channel(i as usize), rights: Rights::from_bits(11), epoch: 0 }
                } else {
                    grants_model(a.model@, p, gs).0->Some_0[i - CHANNELS]
                }),
            b.mem.regions() == a.mem.regions(),
            b.pids@ == a.pids@.push(child),
            forall|q: int| 0 <= q < a.pids@.len() ==> #[trigger] a.pids@[q] != child,
            b.sched.lookup(child) is Some,
            forall|h: u32| #[trigger] b.ktable(a.pids@.len() as int).contains_key(h) <==> h < tc.len(),
            forall|h: u32|
                h < tc.len() ==> crate::process::transfer::delivered_as(
                    #[trigger] (pre + to_grants_spec(gs))[h as int],
                    resolve_spec(a.k, a.ktable(p), pre + to_grants_spec(gs))->Ok_0[h as int],
                    b.ktable(a.pids@.len() as int)[h],
                ),
            b.stash@ == a.stash@ + Seq::new(tc.len(), |i: int| (b.ktable(a.pids@.len() as int)[i as u32], tc[i].1)),
            forall|q: int| 0 <= q < a.pids@.len() && q != p ==> #[trigger] b.same_table(a, q),
            b.sched.lookup(b.pids@[p]) is Some,
            b.ktable(p) == a.ktable(p).remove_keys(leaving_handles(pre + to_grants_spec(gs))),
            b.chans.queues() == a.chans.queues(),
            b.in_flight@ == a.in_flight@,
            a.stamps@.len() <= b.stamps@.len(),
            forall|i: int| 0 <= i < a.stamps@.len() ==> #[trigger] b.stamps@[i] == a.stamps@[i],
        ensures
            b.mirrored(),
    {
        broadcast use vstd::seq_lib::group_filter_ensures;

        let regions = a.model@.regions;
        let ch = a.model@.channels;
        let m2 = grants_model(a.model@, p, gs).1;
        let rb = m2.regions;
        let dm = grants_model(a.model@, p, gs).0->Some_0;
        let t = a.model@.tables[p];
        let table = a.ktable(p);
        let kgs = to_grants_spec(gs);
        let all = pre + kgs;
        let held = held_models(t, gs);
        let n0 = a.pids@.len() as int;
        let kc = b.ktable(n0);
        assert(a.model.channels.len() == ch.len());
        assert(a.model.regions.len() == regions.len());
        assert(model_wf(a.model@));
        assert(a.process_mirrored(p));
        assert(a.holds_channels(p));
        Self::lemma_batch_mirrored(a, p, gs);
        Self::lemma_spawn_batch(a, p, gs, pre);
        let head = Seq::new(pre.len(), |i: int| crate::process::transfer::resolve_one(a.k, table, pre[i])->Ok_0);
        let sg = resolve_spec(a.k, table, kgs)->Ok_0;
        let sa = resolve_spec(a.k, table, all)->Ok_0;
        assert(sa == head + sg);
        assert(moves_bumped(a.k.epochs(), b.k.epochs(), kgs, sg));
        crate::process::transfer::lemma_resolve_prefix(a.k, table, kgs, kgs.len());
        assert forall|cap: Capability, cm: CapModel|
            mirrors(a.k, regions, ch, cap, cm) && obj_known(regions, ch, cm.obj) implies #[trigger] mirrors(b.k, rb, ch, cap, cm) by {
            law_model_follows_grants(a.k, b.k, a.model@, p, table, gs, cap, cm);
        }
        let sm = model_resolve(regions, ch, held, gs)->Some_0;
        lemma_model_prefix_objects(regions, ch, held, gs, gs.len());
        assert(rb.len() == regions.len());
        assert forall|x: int| 0 <= x < regions.len() implies (#[trigger] rb[x]).object == regions[x].object && rb[x].alive
            == regions[x].alive && rb[x].bytes == regions[x].bytes by {
        }
        assert forall|x: int| 0 <= x < rb.len() implies #[trigger] b.region_epoch_mirrored(x) by {
            assert(a.region_epoch_mirrored(x));
            let cm = CapModel { obj: Obj::Region(x as usize), rights: Rights::from_bits(0), epoch: regions[x].epoch };
            let fc = Capability::ghost_of(regions[x].object, Rights::from_bits(0), regions[x].epoch);
            assert(obj_known(regions, ch, cm.obj));
            assert(mirrors(a.k, regions, ch, fc, cm));
            assert(mirrors(b.k, rb, ch, fc, cm));
        }
        assert forall|x: int| 0 <= x < ch.len() implies b.k.epochs().contains_key(#[trigger] ch[x].id()) && b.k.epochs()[ch[x].id()] == 0 by {
            assert(a.channel_mirrored(x));
            let cm = CapModel { obj: Obj::Channel(x as usize), rights: Rights::from_bits(0), epoch: 0 };
            let fc = Capability::ghost_of(ch[x], Rights::from_bits(0), 0);
            assert(obj_known(regions, ch, cm.obj));
            assert(mirrors(a.k, regions, ch, fc, cm));
            assert(mirrors(b.k, rb, ch, fc, cm));
        }
        Self::lemma_channels_kept(a, b);
        // What the child holds under each handle is mirrored by `tc`.
        let delivered = Seq::new(gs.len(), |j: int| kc[(j + CHANNELS) as u32]);
        assert forall|i: int| 0 <= i < gs.len() implies crate::process::transfer::delivered_as(
            #[trigger] kgs[i],
            sg[i],
            delivered[i],
        ) by {
            let h = (i + CHANNELS) as u32;
            assert(all[h as int] == kgs[i]);
            assert(sa[h as int] == sg[i]);
        }
        law_model_predicts_delivery(a.k, a.model@, p, table, gs, delivered);
        assert forall|i: int| 0 <= i < tc.len() implies mirrors(b.k, rb, ch, #[trigger] kc[i as u32], tc[i].1) && (tc[i].1.obj is Channel
            ==> tc[i].1.rights.spec_contains(Rights::from_bits(11))) by {
            let h = i as u32;
            if i < CHANNELS {
                assert(all[i] == pre[i]);
                assert(sa[i] == head[i]);
                let x = choose|x: int| 0 <= x < t.len() && (#[trigger] t[x]).0 == pre[i]->Derive_0 && t[x].1.obj == Obj::Channel(i as usize);
                assert(table_has(t, t[x].0));
                assert(Handle(t[x].0.0) == t[x].0);
                let cap = table[t[x].0.0];
                assert(mirrors(a.k, regions, ch, cap, t[x].1));
                assert(a.channel_mirrored(i));
                cap.lemma_with_rights(Rights::from_bits(11));
                assert(kc[h] == head[i]);
                assert(kc[h].object() == ch[i]);
                assert(kc[h].epoch() == 0);
                crate::rights::lemma_contains_reflexive(11);
            } else {
                let j = i - CHANNELS;
                assert(kc[h] == delivered[j]);
                assert(crate::workload::chaos::models(rb, ch, delivered[j], dm[j]));
                assert(sm[j].obj == held[j].obj);
                assert(held[j] == held_of(t, gs[j].0));
                let r = dm[j].obj->Region_0 as int;
                assert(b.region_epoch_mirrored(r));
            }
        }
        assert(b.model@.tables.len() == n0 + 1);
        assert forall|q: int|
            #![trigger b.process_mirrored(q)]
            #![trigger b.holds_channels(q)]
            0 <= q < b.pids@.len() implies b.process_mirrored(q) && b.holds_channels(q) by {
            if q == n0 {
                assert(b.model@.tables[q] == tc);
                assert(b.pids@[q] == child);
                assert forall|h: u32| #[trigger] b.ktable(q).contains_key(h) <==> table_has(tc, Handle(h)) by {
                    if h < tc.len() {
                        assert(tc[h as int].0 == Handle(h));
                    }
                }
                assert forall|i: int| 0 <= i < tc.len() implies mirrors(b.k, rb, ch, b.ktable(q)[(#[trigger] tc[i]).0.0], tc[i].1) by {
                    assert(mirrors(b.k, rb, ch, kc[i as u32], tc[i].1));
                }
                assert forall|cc: usize| cc < CHANNELS implies #[trigger] table_holds(tc, Obj::Channel(cc)) by {
                    assert(tc[cc as int].1.obj == Obj::Channel(cc));
                }
                assert forall|i: int| 0 <= i < tc.len() && (#[trigger] tc[i]).1.obj is Channel implies tc[i].1.rights.spec_contains(
                    Rights::from_bits(11),
                ) by {
                    assert(mirrors(b.k, rb, ch, kc[i as u32], tc[i].1));
                }
            } else {
                assert(a.process_mirrored(q));
                assert(a.holds_channels(q));
                assert(b.pids@[q] == a.pids@[q]);
                if q != p {
                    assert(b.same_table(a, q));
                    assert(b.model@.tables[q] == a.model@.tables[q]);
                    let tq = b.model@.tables[q];
                    assert forall|i: int| 0 <= i < tq.len() implies mirrors(b.k, rb, ch, b.ktable(q)[(#[trigger] tq[i]).0.0], tq[i].1) by {
                        assert(mirrors(a.k, regions, ch, a.ktable(q)[tq[i].0.0], tq[i].1));
                        assert(obj_known(regions, ch, tq[i].1.obj));
                    }
                } else {
                    let t1 = b.model@.tables[p];
                    assert(t1 == t.filter(kept_by(gs)));
                    crate::workload::chaos::lemma_filter_sorted(t, kept_by(gs));
                    let fc = Capability::ghost_of(ch[0], Rights::from_bits(0), 0);
                    assert(a.channel_mirrored(0));
                    assert(obj_known(regions, ch, Obj::Channel(0)));
                    law_model_follows_grants(a.k, b.k, a.model@, p, table, gs, fc, CapModel { obj: Obj::Channel(0), rights: Rights::from_bits(0), epoch: 0 });
                    assert forall|h: u32| #[trigger] b.ktable(q).contains_key(h) <==> table_has(t1, Handle(h)) by {
                    }
                    assert forall|i: int| 0 <= i < t1.len() implies mirrors(b.k, rb, ch, b.ktable(q)[(#[trigger] t1[i]).0.0], t1[i].1) by {
                        assert(t.contains(t1[i]));
                        let k = choose|k: int| 0 <= k < t.len() && t[k] == t1[i];
                        assert(mirrors(a.k, regions, ch, table[t[k].0.0], t[k].1));
                        assert(obj_known(regions, ch, t[k].1.obj));
                        assert(table_has(t1, t1[i].0));
                        assert(Handle(t1[i].0.0) == t1[i].0);
                        assert(b.ktable(q).contains_key(t1[i].0.0));
                        assert(b.ktable(q)[t1[i].0.0] == table[t1[i].0.0]);
                    }
                    assert forall|cc: usize| cc < CHANNELS implies #[trigger] table_holds(t1, Obj::Channel(cc)) by {
                        assert(table_holds(t, Obj::Channel(cc)));
                        let k = choose|k: int| 0 <= k < t.len() && (#[trigger] t[k]).1.obj == Obj::Channel(cc);
                        if takes_out(gs, t[k].0) {
                            let i = choose|i: int| 0 <= i < gs.len() && !((#[trigger] gs[i]).1 is Derive) && gs[i].0 == t[k].0;
                            lemma_held_of(t, k);
                            assert(held_of(t, gs[i].0).obj is Region);
                        }
                        assert(kept_by(gs)(t[k]));
                        assert(t1.contains(t[k]));
                        let i = choose|i: int| 0 <= i < t1.len() && t1[i] == t[k];
                        assert(t1[i].1.obj == Obj::Channel(cc));
                    }
                    assert forall|i: int| 0 <= i < t1.len() && (#[trigger] t1[i]).1.obj is Channel implies t1[i].1.rights.spec_contains(
                        Rights::from_bits(11),
                    ) by {
                        assert(t.contains(t1[i]));
                        let k = choose|k: int| 0 <= k < t.len() && t[k] == t1[i];
                        assert(t[k].1.obj is Channel);
                    }
                }
            }
        }
        assert forall|p1: int, q1: int| 0 <= p1 < q1 < b.pids@.len() implies b.pids@[p1] != b.pids@[q1] by {
            if q1 == n0 {
                assert(a.pids@[p1] != child);
            }
        }
        assert forall|i: int| 0 <= i < b.stash@.len() implies mirrors(b.k, rb, ch, (#[trigger] b.stash@[i]).0, b.stash@[i].1) by {
            if i < a.stash@.len() {
                assert(b.stash@[i] == a.stash@[i]);
                assert(mirrors(a.k, regions, ch, a.stash@[i].0, a.stash@[i].1));
                assert(obj_known(a.model.regions@, a.model.channels@, a.stash@[i].1.obj));
            } else {
                let j = i - a.stash@.len();
                assert(b.stash@[i] == (kc[j as u32], tc[j].1));
                assert(mirrors(b.k, rb, ch, kc[j as u32], tc[j].1));
            }
        }
        assert forall|x: int| 0 <= x < rb.len() implies #[trigger] b.region_mirrored(x) by {
            assert(a.region_mirrored(x));
        }
        assert forall|o: Obj| obj_known(rb, ch, o) implies model_object(rb, ch, o) == model_object(regions, ch, o) by {
        }
        assert forall|o: Obj| #[trigger] obj_known(rb, ch, o) implies model_object(rb, ch, o).id() < b.k.next_id() by {
            assert(obj_known(regions, ch, o));
            assert(model_object(rb, ch, o) == model_object(regions, ch, o));
        }
        assert(objects_distinct(rb, ch));
        assert forall|x: u64| #[trigger] b.mem.regions().contains_key(x) implies exists|r: int|
            0 <= r < rb.len() && rb[r].alive && (#[trigger] rb[r].object).id() == x by {
            assert(a.mem.regions().contains_key(x));
            let r = choose|r: int| 0 <= r < regions.len() && regions[r].alive && (#[trigger] regions[r].object).id() == x;
            assert(rb[r].object == regions[r].object);
        }
    }

    /// Mirroring survives any change the scheduler does not see.
    proof fn lemma_mirrored_same(a: World, b: World)
        requires
            a.mirrored(),
            b.wf(),
            a.k.epochs() == b.k.epochs(),
            a.k.next_id() == b.k.next_id(),
            a.sched == b.sched,
            a.mem.regions() == b.mem.regions(),
            a.model@ == b.model@,
            a.pids@ == b.pids@,
            a.stash@ == b.stash@,
            a.chans.queues() == b.chans.queues(),
            a.in_flight@ == b.in_flight@,
            a.stamps@ == b.stamps@,
        ensures
            b.mirrored(),
    {
        assert forall|q: int| 0 <= q < a.pids@.len() implies #[trigger] b.same_table(a, q) by {
            assert(a.process_mirrored(q));
        }
        Self::lemma_mirrored_frame(a, b);
    }

    /// Some counter an operation may need is at its limit: the next object
    /// id, the next process id, an epoch of the model or of the kernel, a
    /// process's Lamport time or next handle, or the handles a queued
    /// message would take or its send time.
    pub closed spec fn at_limit(&self) -> bool {
        let procs = self.sched.procs();
        let queues = self.chans.queues();
        ||| self.k.next_id() == u64::MAX
        ||| self.sched.next_pid() == u64::MAX
        ||| (exists|r: int| 0 <= r < self.model@.regions.len() && (#[trigger] self.model@.regions[r]).epoch == u64::MAX)
        ||| (exists|id: u64| #[trigger] self.k.epochs().contains_key(id) && self.k.epochs()[id] == u64::MAX)
        ||| (exists|i: int| 0 <= i < procs.len() && (#[trigger] procs[i]).clock_state().time() >= u64::MAX - 1)
        ||| (exists|i: int| 0 <= i < procs.len() && (#[trigger] procs[i]).next_handle() == u32::MAX)
        ||| (exists|i: int, id: u64|
            0 <= i < procs.len() && #[trigger] queues.contains_key(id) && queues[id].len() > 0 && ((#[trigger] procs[i]).next_handle()
                + queues[id][0].capabilities.len() >= u32::MAX || queues[id][0].stamp.lamport() == u64::MAX))
    }

    /// What the model holds.
    pub closed spec fn model_view(&self) -> ChaosModelView {
        self.model@
    }

    /// The running hash of the step log.
    pub closed spec fn log_hash(&self) -> u64 {
        self.log
    }

    /// How many operations of tally slot `kind` succeeded, and how many were
    /// refused.
    pub closed spec fn tally_count(&self, kind: int) -> (u64, u64) {
        self.tallies@[kind]
    }

    /// How many replays of stale capabilities were refused.
    pub closed spec fn stale_refusals(&self) -> u64 {
        self.stale_refused
    }

    /// How many events were recorded.
    pub closed spec fn events(&self) -> nat {
        self.stamps@.len()
    }

    /// Every counter a run advances is within what `b` steps can reach: at
    /// most one object and one process a step, one epoch a step for each
    /// object, two Lamport ticks and four handles a step for each process,
    /// and at most three capabilities in a message.
    pub closed spec fn bounded(&self, b: int) -> bool {
        let procs = self.sched.procs();
        let queues = self.chans.queues();
        &&& 0 <= b
        &&& self.k.next_id() <= 5 + b
        &&& self.sched.next_pid() <= 1 + b
        &&& forall|id: u64| #[trigger] self.k.epochs().contains_key(id) ==> self.k.epochs()[id] <= b
        &&& forall|r: int| 0 <= r < self.model@.regions.len() ==> (#[trigger] self.model@.regions[r]).epoch <= b
        &&& forall|i: int|
            0 <= i < procs.len() ==> (#[trigger] procs[i]).clock_state().time() <= 2 * b && procs[i].next_handle() <= 5 + 4
                * b
        &&& forall|id: u64, j: int|
            #[trigger] queues.contains_key(id) && 0 <= j < queues[id].len() ==> (#[trigger] queues[id][j]).stamp.lamport() <= 2
                * b && queues[id][j].capabilities.len() <= 3
    }

    /// The recorded events are an execution stamped by the processes'
    /// clocks: each event's predecessors are the event before it at its
    /// process and the event whose message it received; every process's
    /// clock stands at the stamp of its last event, or is fresh; and every
    /// event belongs to a process the scheduler has spawned.
    pub closed spec fn traced(&self) -> bool {
        let ev = self.trace@;
        &&& ev.len() == self.stamps@.len()
        &&& stamped_execution(ev, self.stamps@)
        &&& forall|i: int| 0 <= i < ev.len() ==> (#[trigger] self.stamps@[i]).vector().bounded_by(self.stamps@[i].lamport())
        &&& forall|i: int| 0 <= i < ev.len() ==> (#[trigger] self.preds@[i])@ == event_preds(ev, i)
        &&& forall|i: int| 0 <= i < ev.len() ==> (#[trigger] ev[i]).0.0 < self.sched.next_pid()
        &&& forall|q: int| 0 <= q < self.pids@.len() ==> #[trigger] self.clock_traced(q)
    }

    /// Process `q`'s clock stands at the stamp of its last recorded event,
    /// or is fresh if it has none, and the harness knows which event that is.
    pub closed spec fn clock_traced(&self, q: int) -> bool {
        let ev = self.trace@;
        let last = last_before(ev, self.pids@[q].0, ev.len() as int);
        let c = self.sched.lookup(self.pids@[q])->Some_0.clock_state();
        &&& self.sched.lookup(self.pids@[q]) is Some
        &&& self.last_event@[q] == (if last >= 0 {
            Some(last as usize)
        } else {
            None::<usize>
        })
        &&& last >= 0 ==> c.stamps_now(self.stamps@[last])
        &&& last < 0 ==> c.time() == 0 && forall|key: u64| #[trigger] c.counts().count(key) == 0
    }

    /// Process `q` exists here with the clock it has in `other`.
    pub closed spec fn same_clock(&self, other: World, q: int) -> bool {
        &&& self.sched.lookup(self.pids@[q]) is Some
        &&& self.sched.lookup(self.pids@[q])->Some_0.clock_state() == other.sched.lookup(other.pids@[q])->Some_0.clock_state()
    }

    /// The recorded events stay a stamped execution while no event is
    /// recorded and no process's clock moves.
    proof fn lemma_traced_frame(a: World, b: World)
        requires
            a.traced(),
            b.trace@ == a.trace@,
            b.stamps@ == a.stamps@,
            b.preds@ == a.preds@,
            b.last_event@ == a.last_event@,
            b.pids@ == a.pids@,
            b.sched.next_pid() >= a.sched.next_pid(),
            forall|q: int| 0 <= q < a.pids@.len() ==> #[trigger] b.same_clock(a, q),
        ensures
            b.traced(),
    {
        assert forall|q: int| 0 <= q < b.pids@.len() implies #[trigger] b.clock_traced(q) by {
            assert(a.clock_traced(q));
            assert(b.same_clock(a, q));
        }
        assert forall|i: int| 0 <= i < b.trace@.len() implies (#[trigger] b.preds@[i])@ == event_preds(b.trace@, i) by {
            assert(a.preds@[i]@ == event_preds(a.trace@, i));
        }
        assert forall|i: int| 0 <= i < b.trace@.len() implies (#[trigger] b.stamps@[i]).vector().bounded_by(b.stamps@[i].lamport()) by {
            assert(a.stamps@[i].vector().bounded_by(a.stamps@[i].lamport()));
        }
        assert forall|i: int| 0 <= i < b.trace@.len() implies (#[trigger] b.trace@[i]).0.0 < b.sched.next_pid() by {
            assert(a.trace@[i].0.0 < a.sched.next_pid());
        }
    }

    /// The recorded events stay a stamped execution while nothing the
    /// record looks at changes.
    proof fn lemma_traced_same(a: World, b: World)
        requires
            a.traced(),
            b.trace@ == a.trace@,
            b.stamps@ == a.stamps@,
            b.preds@ == a.preds@,
            b.last_event@ == a.last_event@,
            b.pids@ == a.pids@,
            b.sched == a.sched,
        ensures
            b.traced(),
    {
        assert forall|q: int| 0 <= q < a.pids@.len() implies #[trigger] b.same_clock(a, q) by {
            assert(a.clock_traced(q));
        }
        Self::lemma_traced_frame(a, b);
    }

    /// The recorded events stay a stamped execution when process `p`
    /// records one more: a local event or a send when `from` is `None`, or
    /// the receive of the message event `from` sent, its clock stepping
    /// from `before` to `after`, which stamps the event `s`.
    proof fn lemma_traced_event(
        a: World,
        b: World,
        p: int,
        from: Option<int>,
        s: Stamp,
        before: crate::clock::EventClock<ProcessId>,
        after: crate::clock::EventClock<ProcessId>,
    )
        requires
            a.traced(),
            a.wf(),
            a.sched.wf(),
            b.sched.wf(),
            0 <= p < a.pids@.len(),
            forall|x: int, y: int| 0 <= x < y < a.pids@.len() ==> a.pids@[x] != a.pids@[y],
            b.pids@ == a.pids@,
            b.stamps@ == a.stamps@.push(s),
            b.trace@ == a.trace@.push((a.pids@[p], from)),
            b.preds@.len() == a.preds@.len() + 1,
            forall|i: int| 0 <= i < a.preds@.len() ==> #[trigger] b.preds@[i] == a.preds@[i],
            b.preds@[a.preds@.len() as int]@ == (match from {
                Some(x) => seq![x as usize],
                None => Seq::<usize>::empty(),
            }) + (match a.last_event@[p] {
                Some(prev) => seq![prev],
                None => Seq::<usize>::empty(),
            }),
            b.last_event@ == a.last_event@.update(p, Some(a.stamps@.len() as usize)),
            b.sched.next_pid() >= a.sched.next_pid(),
            forall|q: int| 0 <= q < a.pids@.len() && q != p ==> #[trigger] b.same_clock(a, q),
            a.sched.lookup(a.pids@[p]) is Some,
            before == a.sched.lookup(a.pids@[p])->Some_0.clock_state(),
            b.sched.lookup(b.pids@[p]) is Some,
            after == b.sched.lookup(b.pids@[p])->Some_0.clock_state(),
            after.owner() == before.owner(),
            after.stamps_now(s),
            before.time() < u64::MAX,
            from is None ==> crate::process::table::local_step(before, after),
            from matches Some(x) ==> 0 <= x < a.stamps@.len() && a.stamps@[x].lamport() < u64::MAX
                && crate::process::table::receive_step(before, a.stamps@[x], after),
        ensures
            b.traced(),
    {
        let ev = a.trace@;
        let n = ev.len() as int;
        let e2 = b.trace@;
        let s2 = b.stamps@;
        let key = a.pids@[p].0;
        lemma_trace_push(ev, a.stamps@, (a.pids@[p], from), s);
        a.sched.lemma_wf();
        b.sched.lemma_wf();
        a.sched.procs()[a.pids@[p].0 as int].lemma_wf();
        b.sched.procs()[b.pids@[p].0 as int].lemma_wf();
        assert(a.clock_traced(p));
        lemma_last_before_push(ev, (a.pids@[p], from), key, n);
        crate::clock::lemma_last_before(ev, key, n);
        assert(e2[n] == (a.pids@[p], from));
        assert(previous_at(e2, n) == last_before(ev, key, n));
        if let Some(x) = from {
            assert(s2[x] == a.stamps@[x]);
            assert(a.stamps@[x].vector().bounded_by(a.stamps@[x].lamport()));
        }
        let prev = previous_at(e2, n);
        if prev >= 0 {
            assert(s2[prev] == a.stamps@[prev]);
        }
        assert(before.owner() == a.pids@[p]);
        assert(receives_earlier(e2, n));
        crate::clock::law_clock_steps_stamp_events(e2, s2, n, before, after);
        assert forall|j: int| 0 <= j < e2.len() implies #[trigger] clock_stamped(e2, s2, j) && receives_earlier(e2, j) by {
            if j < n {
            }
        }
        assert forall|i: int| 0 <= i < e2.len() implies (#[trigger] s2[i]).vector().bounded_by(s2[i].lamport()) by {
            if i < n {
                assert(s2[i] == a.stamps@[i]);
            }
        }
        assert forall|i: int| 0 <= i < e2.len() implies (#[trigger] b.preds@[i])@ == event_preds(e2, i) by {
            if i < n {
                assert(b.preds@[i] == a.preds@[i]);
            } else {
                assert(b.preds@[i]@ =~= event_preds(e2, i));
            }
        }
        assert forall|i: int| 0 <= i < e2.len() implies (#[trigger] e2[i]).0.0 < b.sched.next_pid() by {
            if i < n {
                assert(e2[i] == ev[i]);
            }
        }
        assert forall|q: int| 0 <= q < b.pids@.len() implies #[trigger] b.clock_traced(q) by {
            assert(a.clock_traced(q));
            let kq = a.pids@[q].0;
            if q != p {
                assert(b.same_clock(a, q));
            }
            if q == p {
                assert(last_before(e2, kq, n + 1) == n);
            } else {
                if q < p {
                    assert(a.pids@[q] != a.pids@[p]);
                } else {
                    assert(a.pids@[p] != a.pids@[q]);
                }
                assert(kq != key);
                lemma_last_before_push(ev, (a.pids@[p], from), kq, n);
                assert(last_before(e2, kq, n + 1) == last_before(e2, kq, n));
                let lq = last_before(ev, kq, n);
                if lq >= 0 {
                    crate::clock::lemma_last_before(ev, kq, n);
                    assert(s2[lq] == a.stamps@[lq]);
                }
            }
        }
    }

    /// The recorded events stay a stamped execution when a new process
    /// `child`, joining the world, records its birth: the receive of the
    /// spawn event `x`, which its clock, stamping `s`, already reflects.
    proof fn lemma_traced_birth(a: World, b: World, child: ProcessId, x: int, s: Stamp)
        requires
            a.traced(),
            a.sched.wf(),
            b.sched.wf(),
            b.sched == a.sched,
            a.preds@.len() == a.trace@.len(),
            a.last_event@.len() == a.pids@.len(),
            forall|i: int| 0 <= i < a.trace@.len() ==> (#[trigger] a.trace@[i]).0.0 < child.0,
            forall|q: int| 0 <= q < a.pids@.len() ==> (#[trigger] a.pids@[q]) != child,
            b.pids@ == a.pids@.push(child),
            b.stamps@ == a.stamps@.push(s),
            b.trace@ == a.trace@.push((child, Some(x))),
            b.preds@.len() == a.preds@.len() + 1,
            forall|i: int| 0 <= i < a.preds@.len() ==> #[trigger] b.preds@[i] == a.preds@[i],
            b.preds@[a.preds@.len() as int]@ == seq![x as usize],
            b.last_event@ == a.last_event@.push(Some(a.stamps@.len() as usize)),
            0 <= x < a.stamps@.len(),
            b.sched.lookup(child) is Some,
            ({
                let c = b.sched.lookup(child)->Some_0.clock_state();
                let sent = a.stamps@[x];
                &&& c.owner() == child
                &&& c.stamps_now(s)
                &&& c.time() == sent.lamport() + 1
                &&& forall|key: u64| #[trigger] c.counts().count(key) == (if key == child.0 {
                    (crate::clock::vector::max_count(0, sent.vector().count(key)) + 1) as u64
                } else {
                    crate::clock::vector::max_count(0, sent.vector().count(key))
                })
            }),
        ensures
            b.traced(),
    {
        let ev = a.trace@;
        let n = ev.len() as int;
        let e2 = b.trace@;
        let s2 = b.stamps@;
        let sent = a.stamps@[x];
        let c = b.sched.lookup(child)->Some_0.clock_state();
        lemma_trace_push(ev, a.stamps@, (child, Some(x)), s);
        b.sched.lemma_wf();
        b.sched.procs()[child.0 as int].lemma_wf();
        lemma_last_before_push(ev, (child, Some(x)), child.0, n);
        crate::clock::lemma_last_before(ev, child.0, n);
        if last_before(ev, child.0, n) >= 0 {
            assert(ev[last_before(ev, child.0, n)].0.0 == child.0);
        }
        assert(e2[n] == (child, Some(x)));
        assert(previous_at(e2, n) == -1);
        assert(s2[x] == sent);
        assert(sent.vector().bounded_by(sent.lamport()));
        assert(receives_earlier(e2, n));
        assert forall|key: u64| #[trigger]
            s2[n].vector().count(key) as int == merged_count(e2, s2, n, key) as int + (if key == e2[n].0.0 {
                1int
            } else {
                0int
            }) by {
            assert(sent.vector().count(key) <= sent.lamport());
        }
        assert(clock_stamped(e2, s2, n));
        assert forall|j: int| 0 <= j < e2.len() implies #[trigger] clock_stamped(e2, s2, j) && receives_earlier(e2, j) by {
        }
        assert forall|i: int| 0 <= i < e2.len() implies (#[trigger] s2[i]).vector().bounded_by(s2[i].lamport()) by {
            if i < n {
                assert(s2[i] == a.stamps@[i]);
            }
        }
        assert forall|i: int| 0 <= i < e2.len() implies (#[trigger] b.preds@[i])@ == event_preds(e2, i) by {
            if i < n {
                assert(b.preds@[i] == a.preds@[i]);
            } else {
                assert(b.preds@[i]@ =~= event_preds(e2, i));
            }
        }
        assert forall|i: int| 0 <= i < e2.len() implies (#[trigger] e2[i]).0.0 < b.sched.next_pid() by {
            if i < n {
                assert(e2[i] == ev[i]);
                assert(a.trace@[i].0.0 < a.sched.next_pid());
            }
        }
        assert forall|q: int| 0 <= q < b.pids@.len() implies #[trigger] b.clock_traced(q) by {
            if q < a.pids@.len() {
                assert(a.clock_traced(q));
                let kq = a.pids@[q].0;
                assert(a.pids@[q] != child);
                assert(kq != child.0);
                lemma_last_before_push(ev, (child, Some(x)), kq, n);
                assert(last_before(e2, kq, n + 1) == last_before(e2, kq, n));
                let lq = last_before(ev, kq, n);
                if lq >= 0 {
                    crate::clock::lemma_last_before(ev, kq, n);
                    assert(s2[lq] == a.stamps@[lq]);
                }
            } else {
                assert(b.pids@[q] == child);
                assert(last_before(e2, child.0, n + 1) == n);
            }
        }
    }

    /// Within a quarter of a billion steps no counter reaches its limit.
    proof fn lemma_bounded_below_limit(&self, b: int)
        requires
            self.bounded(b),
            0 <= b <= 0x1000_0000,
        ensures
            !self.at_limit(),
    {
    }

    /// How many processes take part.
    pub closed spec fn processes(&self) -> nat {
        self.pids@.len()
    }

    pub fn process_count(&self) -> (n: usize)
        requires
            self.wf(),
        ensures
            n == self.processes(),
            1 <= n <= MAX_PROCESSES,
    {
        self.pids.len()
    }
}

proof fn lemma_held_of(t: Seq<(Handle, CapModel)>, i: int)
    requires
        table_sorted(t),
        0 <= i < t.len(),
    ensures
        table_has(t, t[i].0),
        held_of(t, t[i].0) == t[i].1,
{
    assert(t[i].0 == t[i].0);
    let c = choose|c: int| 0 <= c < t.len() && (#[trigger] t[c]).0 == t[i].0;
    if c < i {
        assert(t[c].0.0 < t[i].0.0);
    } else if c > i {
        assert(t[i].0.0 < t[c].0.0);
    }
}

/// Two tables in increasing handle order holding the same handles hold them
/// at the same positions.
proof fn lemma_same_handles(a: Seq<Handle>, b: Seq<(Handle, CapModel)>, i: int)
    requires
        forall|x: int, y: int| 0 <= x < y < a.len() ==> (#[trigger] a[x]).0 < (#[trigger] a[y]).0,
        table_sorted(b),
        forall|k: int| 0 <= k < a.len() ==> table_has(b, #[trigger] a[k]),
        forall|h: Handle| table_has(b, h) ==> exists|k: int| 0 <= k < a.len() && #[trigger] a[k] == h,
        0 <= i <= a.len(),
        i <= b.len(),
    ensures
        forall|j: int| 0 <= j < i ==> a[j] == (#[trigger] b[j]).0,
    decreases i,
{
    if i > 0 {
        lemma_same_handles(a, b, i - 1);
        let x = i - 1;
        assert(table_has(b, a[x]));
        let k = choose|k: int| 0 <= k < b.len() && (#[trigger] b[k]).0 == a[x];
        assert(b[x].0 == b[x].0);
        assert(table_has(b, b[x].0));
        let m = choose|m: int| 0 <= m < a.len() && #[trigger] a[m] == b[x].0;
        if k < x {
            assert(a[k] == b[k].0);
            assert(a[k].0 < a[x].0);
        } else if k > x {
            assert(b[x].0.0 < b[k].0.0);
            if m < x {
                assert(a[m] == b[m].0);
                assert(b[m].0.0 < b[x].0.0);
            } else if m > x {
                assert(a[x].0 < a[m].0);
            }
        }
    }
}

/// Two such tables have the same length.
proof fn lemma_same_handle_count(a: Seq<Handle>, b: Seq<(Handle, CapModel)>)
    requires
        forall|x: int, y: int| 0 <= x < y < a.len() ==> (#[trigger] a[x]).0 < (#[trigger] a[y]).0,
        table_sorted(b),
        forall|k: int| 0 <= k < a.len() ==> table_has(b, #[trigger] a[k]),
        forall|h: Handle| table_has(b, h) ==> exists|k: int| 0 <= k < a.len() && #[trigger] a[k] == h,
    ensures
        a.len() == b.len(),
        forall|j: int| 0 <= j < a.len() ==> a[j] == (#[trigger] b[j]).0,
{
    if a.len() <= b.len() {
        lemma_same_handles(a, b, a.len() as int);
        if a.len() < b.len() {
            let x = a.len() as int;
            assert(b[x].0 == b[x].0);
            assert(table_has(b, b[x].0));
            let m = choose|m: int| 0 <= m < a.len() && #[trigger] a[m] == b[x].0;
            assert(a[m] == b[m].0);
            assert(b[m].0.0 < b[x].0.0);
        }
    } else {
        lemma_same_handles(a, b, b.len() as int);
        let x = b.len() as int;
        assert(table_has(b, a[x]));
        let k = choose|k: int| 0 <= k < b.len() && (#[trigger] b[k]).0 == a[x];
        assert(a[k] == b[k].0);
        assert(a[k].0 < a[x].0);
    }
}

/// Puts `(h, m)` into a sorted modelled table, replacing what `h` held.
fn table_insert(t: &mut Vec<(Handle, CapModel)>, h: Handle, m: CapModel)
    requires
        table_sorted(old(t)@),
    ensures
        table_sorted(final(t)@),
        forall|i: int| 0 <= i < final(t)@.len() ==> #[trigger] final(t)@[i] == (h, m) || old(t)@.contains(final(t)@[i]),
        !table_has(old(t)@, h) ==> {
            &&& forall|i: int|
                0 <= i < final(t)@.len() ==> #[trigger] final(t)@[i] == (h, m) || (old(t)@.contains(final(t)@[i])
                    && final(t)@[i].0 != h)
            &&& forall|x: Handle| #[trigger] table_has(final(t)@, x) <==> (table_has(old(t)@, x) || x == h)
            &&& forall|i: int| 0 <= i < old(t)@.len() ==> final(t)@.contains(#[trigger] old(t)@[i])
        },
{
    let mut i: usize = 0;
    while i < t.len() && t[i].0.0 < h.0
        invariant
            i <= t.len(),
            table_sorted(t@),
            forall|j: int| 0 <= j < i ==> (#[trigger] t@[j]).0.0 < h.0,
        decreases t.len() - i,
    {
        i = i + 1;
    }
    let ghost before = t@;
    if i < t.len() && t[i].0.0 == h.0 {
        t.set(i, (h, m));
        proof {
            assert forall|a: int, b: int| 0 <= a < b < t@.len() implies (#[trigger] t@[a]).0.0 < (#[trigger] t@[b]).0.0 by {
                assert(before[a].0.0 < before[b].0.0);
            }
            assert forall|j: int| 0 <= j < t@.len() implies #[trigger] t@[j] == (h, m) || before.contains(t@[j]) by {
                if j != i {
                    assert(t@[j] == before[j]);
                }
            }
        }
    } else {
        t.insert(i, (h, m));
        proof {
            assert forall|a: int, b: int| 0 <= a < b < t@.len() implies (#[trigger] t@[a]).0.0 < (#[trigger] t@[b]).0.0 by {
                if b < i {
                    assert(before[a].0.0 < before[b].0.0);
                } else if b == i {
                    assert(before[a].0.0 < h.0);
                } else if a < i {
                    assert(before[a].0.0 < h.0);
                    assert(h.0 < before[i as int].0.0 || i == before.len());
                    if (b - 1) > i {
                        assert(before[i as int].0.0 < before[b - 1].0.0);
                    }
                } else if a == i {
                    if (b - 1) > i {
                        assert(before[i as int].0.0 < before[b - 1].0.0);
                    }
                } else {
                    assert(before[a - 1].0.0 < before[b - 1].0.0);
                }
            }
            assert forall|j: int| 0 <= j < t@.len() implies #[trigger] t@[j] == (h, m) || before.contains(t@[j]) by {
                if j < i {
                    assert(t@[j] == before[j]);
                } else if j > i {
                    assert(t@[j] == before[j - 1]);
                }
            }
            if !table_has(before, h) {
                assert forall|j: int| 0 <= j < t@.len() implies #[trigger] t@[j] == (h, m) || (before.contains(t@[j])
                    && t@[j].0 != h) by {
                    if j < i {
                        assert(t@[j] == before[j]);
                    } else if j > i {
                        assert(t@[j] == before[j - 1]);
                    }
                }
                assert forall|j: int| 0 <= j < before.len() implies t@.contains(#[trigger] before[j]) by {
                    if j < i {
                        assert(t@[j] == before[j]);
                    } else {
                        assert(t@[j + 1] == before[j]);
                    }
                }
                assert forall|x: Handle| #[trigger] table_has(t@, x) <==> (table_has(before, x) || x == h) by {
                    if table_has(t@, x) {
                        let j = choose|j: int| 0 <= j < t@.len() && (#[trigger] t@[j]).0 == x;
                        if j < i {
                            assert(t@[j] == before[j]);
                        } else if j > i {
                            assert(t@[j] == before[j - 1]);
                        }
                    }
                    if table_has(before, x) {
                        let j = choose|j: int| 0 <= j < before.len() && (#[trigger] before[j]).0 == x;
                        if j < i {
                            assert(t@[j] == before[j]);
                        } else {
                            assert(t@[j + 1] == before[j]);
                        }
                    }
                    if x == h {
                        assert(t@[i as int] == (h, m));
                    }
                }
            }
        }
    }
}

/// Whether the kernel can bump the epoch of every object the batch moves.
fn kernel_moves_fit(k: &Kernel, proc: &Process, grants: &Vec<Grant>) -> (r: bool)
    ensures
        r ==> moves_can_bump(*k, proc.table(), grants@),
        !r ==> exists|id: u64| #[trigger] k.epochs().contains_key(id) && k.epochs()[id] == u64::MAX,
{
    let mut i: usize = 0;
    while i < grants.len()
        invariant
            i <= grants.len(),
            forall|j: int|
                0 <= j < i && (#[trigger] grants@[j]) is Move && proc.table().contains_key(
                    crate::process::transfer::grant_handle(grants@[j]).0,
                ) ==> k.can_bump(proc.table()[crate::process::transfer::grant_handle(grants@[j]).0].object()),
        decreases grants.len() - i,
    {
        match grants[i] {
            Grant::Move(h) => {
                match proc.capability(h) {
                    Some(cap) => match k.epoch_of(cap.object()) {
                        Some(e) => {
                            if e == u64::MAX {
                                assert(k.epochs().contains_key(cap.object().id()));
                                return false;
                            }
                        },
                        None => {},
                    },
                    None => {},
                }
            },
            _ => {},
        }
        i = i + 1;
    }
    true
}

/// Whether two stamps are the same: same process, time and vector.
fn same_stamp(a: &Stamp, b: &Stamp) -> (r: bool)
    ensures
        r == crate::ipc::same_stamp(*a, *b),
{
    let r = a.process() == b.process() && a.lamport() == b.lamport() && match a.vector().compare(b.vector()) {
        Causality::Equal => true,
        _ => false,
    };
    proof {
        let (va, vb) = (a.vector(), b.vector());
        if va.dominated_by(&vb) && vb.dominated_by(&va) {
            assert forall|key: u64| #[trigger] va.count(key) == vb.count(key) by {
                assert(va.count(key) <= vb.count(key));
                assert(vb.count(key) <= va.count(key));
            }
        }
        if forall|key: u64| #[trigger] va.count(key) == vb.count(key) {
            assert forall|key: u64| #[trigger] va.count(key) <= vb.count(key) by {
                assert(va.count(key) == vb.count(key));
            }
            assert forall|key: u64| #[trigger] vb.count(key) <= va.count(key) by {
                assert(va.count(key) == vb.count(key));
            }
        }
    }
    r
}

/// Two read answers agree: the same bytes, or the same error.
pub open spec fn reads_agree(a: Result<Vec<u8>, MemoryError>, b: Result<Vec<u8>, MemoryError>) -> bool {
    match (a, b) {
        (Ok(x), Ok(y)) => x@ == y@,
        (Err(e), Err(f)) => e == f,
        _ => false,
    }
}

/// Whether two read answers agree.
fn same_read(a: &Result<Vec<u8>, MemoryError>, b: &Result<Vec<u8>, MemoryError>) -> (r: bool)
    ensures
        r == reads_agree(*a, *b),
{
    match a {
        Ok(x) => match b {
            Ok(y) => same_bytes(x, y),
            Err(_) => false,
        },
        Err(e) => match b {
            Ok(_) => false,
            Err(f) => *e == *f,
        },
    }
}

/// Whether two byte strings agree.
fn same_bytes(x: &Vec<u8>, y: &Vec<u8>) -> (r: bool)
    ensures
        r == (x@ == y@),
{
    if x.len() != y.len() {
        return false;
    }
    let mut i: usize = 0;
    while i < x.len()
        invariant
            i <= x.len(),
            x.len() == y.len(),
            forall|j: int| 0 <= j < i ==> x@[j] == y@[j],
        decreases x.len() - i,
    {
        if x[i] != y[i] {
            return false;
        }
        i = i + 1;
    }
    proof {
        assert(x@ =~= y@);
    }
    true
}

/// A copy of `bytes[offset..offset + len]`.
fn copy_range(bytes: &Vec<u8>, offset: usize, len: usize) -> (r: Vec<u8>)
    requires
        offset + len <= bytes@.len(),
    ensures
        r@ == bytes@.subrange(offset as int, offset + len),
{
    let mut r: Vec<u8> = Vec::new();
    let mut i: usize = 0;
    while i < len
        invariant
            i <= len,
            offset + len <= bytes.len(),
            r@ == bytes@.subrange(offset as int, offset + i),
        decreases len - i,
    {
        r.push(bytes[offset + i]);
        i = i + 1;
        proof {
            assert(r@ =~= bytes@.subrange(offset as int, offset + i));
        }
    }
    r
}

impl World {
    fn log_word(&mut self, x: u64)
        ensures
            final(self).log == fnv_bytes(old(self).log, x, 8),
            *final(self) == (World { log: final(self).log, ..*old(self) }),
    {
        let mut h = self.log;
        let mut v = x;
        let mut i: usize = 0;
        while i < 8
            invariant
                i <= 8,
                fnv_bytes(h, v, (8 - i) as nat) == fnv_bytes(old(self).log, x, 8),
            decreases 8 - i,
        {
            let ghost (h0, v0) = (h, v);
            h = (h ^ (v % 256)).wrapping_mul(0x0000_0100_0000_01B3);
            v = v / 256;
            proof {
                assert(h == fnv_step(h0, v0 % 256));
                assert(fnv_bytes(h0, v0, (8 - i) as nat) == fnv_bytes(h, v, (8 - i - 1) as nat));
            }
            i = i + 1;
        }
        self.log = h;
    }

    fn tally(&mut self, kind: usize, ok: bool)
        requires
            old(self).wf(),
            kind < 9,
            old(self).counters_below(u64::MAX as int),
        ensures
            final(self).wf(),
            final(self).pids@ == old(self).pids@,
            final(self).model@ == old(self).model@,
            final(self).stamps@.len() == old(self).stamps@.len(),
            final(self).stale_refused == old(self).stale_refused,
            counters_grew_by_one(old(self).tallies@, final(self).tallies@),
            *final(self) == (World { tallies: final(self).tallies, ..*old(self) }),
            final(self).tallies@ == old(self).tallies@.update(
                kind as int,
                if ok {
                    ((old(self).tallies@[kind as int].0 + 1) as u64, old(self).tallies@[kind as int].1)
                } else {
                    (old(self).tallies@[kind as int].0, (old(self).tallies@[kind as int].1 + 1) as u64)
                },
            ),
    {
        let (a, b) = self.tallies[kind];
        if ok {
            self.tallies.set(kind, (a + 1, b));
        } else {
            self.tallies.set(kind, (a, b + 1));
        }
    }

    fn object_id(&self, obj: Obj) -> (r: ObjectId)
        requires
            obj_known(self.model.regions@, self.model.channels@, obj),
        ensures
            r == model_object(self.model.regions@, self.model.channels@, obj),
    {
        match obj {
            Obj::Region(r) => self.model.regions[r].object,
            Obj::Channel(c) => self.model.channels[c],
        }
    }

    fn record_event(&mut self, p: usize, stamp: Stamp, preds: Vec<usize>) -> (idx: usize)
        requires
            old(self).wf(),
            p < old(self).pids@.len(),
            forall|j: int| 0 <= j < preds@.len() ==> preds@[j] < old(self).stamps@.len(),
        ensures
            final(self).wf(),
            idx == old(self).stamps@.len(),
            final(self).stamps@ == old(self).stamps@.push(stamp),
            final(self).pids@ == old(self).pids@,
            final(self).model@ == old(self).model@,
            final(self).tallies@ == old(self).tallies@,
            final(self).stale_refused == old(self).stale_refused,
            *final(self) == (World {
                stamps: final(self).stamps,
                preds: final(self).preds,
                last_event: final(self).last_event,
                trace: final(self).trace,
                ..*old(self)
            }),
            final(self).trace@ == old(self).trace@.push(
                (old(self).pids@[p as int], if preds@.len() > 0 {
                    Some(preds@[0] as int)
                } else {
                    None
                }),
            ),
            final(self).last_event@ == old(self).last_event@.update(p as int, Some(idx)),
            final(self).preds@.len() == old(self).preds@.len() + 1,
            forall|i: int| 0 <= i < old(self).preds@.len() ==> #[trigger] final(self).preds@[i] == old(self).preds@[i],
            final(self).preds@[idx as int]@ == preds@ + (match old(self).last_event@[p as int] {
                Some(prev) => seq![prev],
                None => Seq::<usize>::empty(),
            }),
    {
        let ghost from: Option<int> = if preds@.len() > 0 {
            Some(preds@[0] as int)
        } else {
            None
        };
        let mut preds = preds;
        match self.last_event[p] {
            Some(prev) => {
                preds.push(prev);
            },
            None => {},
        }
        let idx = self.stamps.len();
        self.last_event.set(p, Some(idx));
        self.stamps.push(stamp);
        self.preds.push(preds);
        self.trace = Ghost(self.trace@.push((self.pids@[p as int], from)));
        proof {
            assert forall|i: int, j: int|
                0 <= i < self.preds@.len() && 0 <= j < self.preds@[i]@.len() implies #[trigger] self.preds@[i]@[j] < i by {
                if i < idx {
                    assert(self.preds@[i] == old(self).preds@[i]);
                }
            }
        }
        idx
    }

    /// The capability under handle `h` of process `p`.
    fn kernel_cap(&self, p: usize, h: Handle) -> (r: Result<Capability, Mismatch>)
        requires
            self.wf(),
            p < self.pids@.len(),
        ensures
            r matches Ok(c) ==> self.sched.lookup(self.pids@[p as int]) is Some && self.ktable(p as int).contains_key(h.0)
                && c == self.ktable(p as int)[h.0],
            self.sched.lookup(self.pids@[p as int]) is Some && self.ktable(p as int).contains_key(h.0) ==> r is Ok,
            r matches Err(e) ==> e is MissingProcess || e is MissingHandle,
    {
        match self.sched.process(self.pids[p]) {
            None => Err(Mismatch::MissingProcess { process: p }),
            Some(proc) => match proc.capability(h) {
                Some(cap) => Ok(cap),
                None => Err(Mismatch::MissingHandle { process: p, handle: h }),
            },
        }
    }

    /// The handle process `p`'s model holds the channel under.
    fn channel_handle(&self, p: usize, channel: usize) -> (r: Result<Handle, Mismatch>)
        requires
            self.wf(),
            p < self.pids@.len(),
        ensures
            r matches Err(e) ==> e is MissingChannel,
            r matches Ok(h) ==> exists|i: int|
                0 <= i < self.model@.tables[p as int].len() && (#[trigger] self.model@.tables[p as int][i]).0 == h
                    && self.model@.tables[p as int][i].1.obj == Obj::Channel(channel),
            (exists|i: int| 0 <= i < self.model@.tables[p as int].len() && (#[trigger] self.model@.tables[p as int][i]).1.obj == Obj::Channel(channel)) ==> r is Ok,
    {
        let t = &self.model.tables[p];
        assert(self.model@.tables[p as int] == t@);
        let mut i: usize = 0;
        while i < t.len()
            invariant
                i <= t.len(),
                self.model@.tables[p as int] == t@,
                forall|j: int| 0 <= j < i ==> (#[trigger] t@[j]).1.obj != Obj::Channel(channel),
            decreases t.len() - i,
        {
            match t[i].1.obj {
                Obj::Channel(c) => {
                    if c == channel {
                        return Ok(t[i].0);
                    }
                },
                _ => {},
            }
            i = i + 1;
        }
        Err(Mismatch::MissingChannel { process: p, channel })
    }

    /// Grants `cap` into process `p` and mirrors it: the kernel acting at
    /// setup or on an allocation, not a process conjuring authority.
    fn install(&mut self, p: usize, cap: Capability, m: CapModel) -> (r: Result<Handle, Mismatch>)
        requires
            old(self).wf(),
            p < old(self).pids@.len(),
            obj_known(old(self).model.regions@, old(self).model.channels@, m.obj),
        ensures
            final(self).trace@ == old(self).trace@,
            final(self).stamps@ == old(self).stamps@,
            final(self).preds@ == old(self).preds@,
            final(self).last_event@ == old(self).last_event@,
            final(self).chans == old(self).chans,
            final(self).sched.next_pid() == old(self).sched.next_pid(),
            final(self).sched.procs().len() == old(self).sched.procs().len(),
            forall|i: int|
                0 <= i < old(self).sched.procs().len() ==> (#[trigger] final(self).sched.procs()[i]).clock_state() == old(
                    self,
                ).sched.procs()[i].clock_state() && final(self).sched.procs()[i].next_handle() <= old(self).sched.procs()[i].next_handle()
                    + 1,
            final(self).log == old(self).log,
            final(self).wf(),
            final(self).pids@ == old(self).pids@,
            final(self).model.regions@ == old(self).model.regions@,
            final(self).model.channels@ == old(self).model.channels@,
            final(self).tallies@ == old(self).tallies@,
            final(self).stale_refused == old(self).stale_refused,
            final(self).k == old(self).k,
            final(self).mem == old(self).mem,
            r == Err::<Handle, Mismatch>(Mismatch::Exhausted) ==> exists|i: int| 0 <= i < old(self).sched.procs().len() && (#[trigger] old(self).sched.procs()[i]).next_handle() == u32::MAX,
            r matches Err(e) ==> e == Mismatch::Exhausted || e is MissingProcess,
            old(self).mirrored() && mirrors(old(self).k, old(self).model@.regions, old(self).model@.channels, cap, m) && (m.obj is Channel
                ==> m.rights.spec_contains(Rights::from_bits(11))) ==> (r is Ok && final(self).mirrored()) || r == Err::<
                Handle,
                Mismatch,
            >(Mismatch::Exhausted),
    {
        let pid = self.pids[p];
        let ghost s0 = self.sched;
        proof {
            s0.lemma_wf();
            if old(self).mirrored() {
                assert(old(self).process_mirrored(p as int));
            }
        }
        match self.sched.process(pid) {
            None => {
                return Err(Mismatch::MissingProcess { process: p });
            },
            Some(pr) => {
                if pr.next_handle_number() == u32::MAX {
                    return Err(Mismatch::Exhausted);
                }
            },
        }
        let proc = match self.sched.process_mut(pid) {
            Some(proc) => proc,
            None => {
                return Err(Mismatch::MissingProcess { process: p });
            },
        };
        let ghost ktable0 = proc.table();
        let handle = proc.grant(cap);
        proof {
            Scheduler::lemma_update_wf(s0, self.sched, pid.0 as int, self.sched.procs()[pid.0 as int]);
        }
        let ghost t0 = self.model.tables@[p as int]@;
        proof {
            if old(self).mirrored() {
                assert(ktable0 == old(self).ktable(p as int));
                assert(Handle(handle.0) == handle);
                assert(!table_has(t0, handle));
            }
        }
        assert(self.model@.tables[p as int] == t0);
        assert(table_sorted(self.model@.tables[p as int]));
        let mut t = self.model.tables.remove(p);
        table_insert(&mut t, handle, m);
        self.model.tables.insert(p, t);
        self.stash.push((cap, m));
        proof {
            let mm = self.model@;
            let m0 = old(self).model@;
            assert(mm.tables =~= m0.tables.update(p as int, self.model.tables@[p as int]@));
            assert forall|q: int| 0 <= q < mm.tables.len() implies {
                &&& table_sorted(#[trigger] mm.tables[q])
                &&& forall|i: int| 0 <= i < mm.tables[q].len() ==> obj_known(mm.regions, mm.channels, (#[trigger] mm.tables[q][i]).1.obj)
            } by {
                if q == p {
                    assert forall|i: int| 0 <= i < mm.tables[q].len() implies obj_known(mm.regions, mm.channels, (#[trigger] mm.tables[q][i]).1.obj) by {
                        if mm.tables[q][i] != (handle, m) {
                            assert(t0.contains(mm.tables[q][i]));
                            let k = choose|k: int| 0 <= k < t0.len() && t0[k] == mm.tables[q][i];
                            assert(m0.tables[q][k] == t0[k]);
                        }
                    }
                } else {
                    assert(mm.tables[q] == m0.tables[q]);
                }
            }
            assert forall|i: int| 0 <= i < self.stash@.len() implies obj_known(
                self.model.regions@,
                self.model.channels@,
                (#[trigger] self.stash@[i]).1.obj,
            ) by {
                if i < old(self).stash@.len() {
                    assert(self.stash@[i] == old(self).stash@[i]);
                }
            }
            if old(self).mirrored() && mirrors(old(self).k, old(self).model@.regions, old(self).model@.channels, cap, m) && (m.obj is Channel
                ==> m.rights.spec_contains(Rights::from_bits(11))) {
                let a = *old(self);
                assert(self.ktable(p as int) == ktable0.insert(handle.0, cap));
                assert forall|q: int| 0 <= q < a.pids@.len() && q != p implies #[trigger] self.same_table(a, q) by {
                    assert(a.process_mirrored(q));
                    if q < p {
                        assert(a.pids@[q] != a.pids@[p as int]);
                    } else {
                        assert(a.pids@[p as int] != a.pids@[q]);
                    }
                }
                assert(mm.tables == m0.tables.update(p as int, mm.tables[p as int]));
                Self::lemma_mirrored_granted(a, *self, p as int, handle, cap, m);
            }
        }
        Ok(handle)
    }
}


/// Each counter of `after` is at most one more than in `before`.
pub open spec fn counters_grew_by_one(before: Seq<(u64, u64)>, after: Seq<(u64, u64)>) -> bool {
    &&& after.len() == before.len()
    &&& forall|i: int| 0 <= i < before.len() ==> (#[trigger] after[i]).0 <= before[i].0 + 1 && after[i].1 <= before[i].1 + 1
}

/// Whether a memory answer is a refusal because the capability was revoked
/// or its object destroyed.
fn dead_mem(e: &MemoryError) -> (r: bool)
    ensures
        r <==> (*e matches MemoryError::Capability(CapError::Revoked(_)) || *e matches MemoryError::Capability(
            CapError::UnknownObject(_),
        )),
{
    match e {
        MemoryError::Capability(CapError::Revoked(_)) => true,
        MemoryError::Capability(CapError::UnknownObject(_)) => true,
        _ => false,
    }
}

/// Whether two memory answers without a value agree.
fn same_mem(a: &Result<(), MemoryError>, b: &Result<(), MemoryError>) -> (r: bool)
    ensures
        r == (*a == *b),
{
    match a {
        Ok(x) => match b {
            Ok(y) => {
                assert(x == y);
                true
            },
            Err(_) => false,
        },
        Err(e) => match b {
            Ok(_) => false,
            Err(f) => *e == *f,
        },
    }
}

/// Whether two capability answers agree.
fn same_cap(a: &Result<(), CapError>, b: &Result<(), CapError>) -> (r: bool)
    ensures
        r == (*a == *b),
{
    match a {
        Ok(x) => match b {
            Ok(y) => {
                assert(x == y);
                assert(*a == *b);
                true
            },
            Err(_) => false,
        },
        Err(e) => match b {
            Ok(_) => false,
            Err(f) => *e == *f,
        },
    }
}

impl World {
    proof fn lemma_known_grow(regions: Seq<RegionModel>, channels: Seq<ObjectId>, more: Seq<RegionModel>)
        requires
            more.len() >= regions.len(),
        ensures
            forall|o: Obj| obj_known(regions, channels, o) ==> #[trigger] obj_known(more, channels, o),
    {
    }

    /// Mirrors `(h, m)` into process `p`'s table model and the stash.
    fn mirror(&mut self, p: usize, h: Handle, cap: Capability, m: CapModel)
        requires
            old(self).wf(),
            p < old(self).pids@.len(),
            obj_known(old(self).model.regions@, old(self).model.channels@, m.obj),
        ensures
            final(self).trace@ == old(self).trace@,
            final(self).preds@ == old(self).preds@,
            final(self).last_event@ == old(self).last_event@,
            final(self).log == old(self).log,
            final(self).wf(),
            final(self).pids@ == old(self).pids@,
            final(self).model.regions@ == old(self).model.regions@,
            final(self).model.channels@ == old(self).model.channels@,
            final(self).tallies@ == old(self).tallies@,
            final(self).stale_refused == old(self).stale_refused,
            final(self).stamps@ == old(self).stamps@,
            final(self).sched == old(self).sched,
            final(self).k == old(self).k,
            final(self).mem == old(self).mem,
            final(self).chans == old(self).chans,
            final(self).in_flight@ == old(self).in_flight@,
            final(self).stash@ == old(self).stash@.push((cap, m)),
            final(self).model@.tables == old(self).model@.tables.update(p as int, final(self).model@.tables[p as int]),
            !table_has(old(self).model@.tables[p as int], h) ==> {
                let t0 = old(self).model@.tables[p as int];
                let t1 = final(self).model@.tables[p as int];
                &&& forall|i: int| 0 <= i < t1.len() ==> #[trigger] t1[i] == (h, m) || t0.contains(t1[i])
                &&& forall|x: Handle| #[trigger] table_has(t1, x) <==> (table_has(t0, x) || x == h)
                &&& forall|i: int| 0 <= i < t0.len() ==> t1.contains(#[trigger] t0[i])
            },
    {
        let ghost t0 = self.model.tables@[p as int]@;
        assert(self.model@.tables[p as int] == t0);
        assert(table_sorted(self.model@.tables[p as int]));
        let mut t = self.model.tables.remove(p);
        table_insert(&mut t, h, m);
        self.model.tables.insert(p, t);
        self.stash.push((cap, m));
        proof {
            let mm = self.model@;
            let m0 = old(self).model@;
            assert(mm.tables =~= m0.tables.update(p as int, self.model.tables@[p as int]@));
            assert forall|q: int| 0 <= q < mm.tables.len() implies {
                &&& table_sorted(#[trigger] mm.tables[q])
                &&& forall|i: int| 0 <= i < mm.tables[q].len() ==> obj_known(mm.regions, mm.channels, (#[trigger] mm.tables[q][i]).1.obj)
            } by {
                if q == p {
                    assert forall|i: int| 0 <= i < mm.tables[q].len() implies obj_known(mm.regions, mm.channels, (#[trigger] mm.tables[q][i]).1.obj) by {
                        if mm.tables[q][i] != (h, m) {
                            assert(t0.contains(mm.tables[q][i]));
                            let k = choose|k: int| 0 <= k < t0.len() && t0[k] == mm.tables[q][i];
                            assert(m0.tables[q][k] == t0[k]);
                        }
                    }
                } else {
                    assert(mm.tables[q] == m0.tables[q]);
                }
            }
            assert forall|i: int| 0 <= i < self.stash@.len() implies obj_known(
                self.model.regions@,
                self.model.channels@,
                (#[trigger] self.stash@[i]).1.obj,
            ) by {
                if i < old(self).stash@.len() {
                    assert(self.stash@[i] == old(self).stash@[i]);
                }
            }
        }
    }

    /// The capability an access uses, its model, and whether it is a replay
    /// from the stash; `None` when there is nothing to pick.
    fn pick_cap(&self, p: usize, pick: Pick, want_region: bool) -> (r: Result<Option<(Capability, CapModel, bool)>, Mismatch>)
        requires
            self.wf(),
            p < self.pids@.len(),
        ensures
            r matches Ok(Some(x)) ==> obj_known(self.model.regions@, self.model.channels@, x.1.obj) && (want_region
                ==> x.1.obj is Region),
            r matches Ok(Some(x)) ==> mirrors(self.k, self.model@.regions, self.model@.channels, x.0, x.1) || !self.mirrored(),
            self.mirrored() ==> r is Ok,
            r matches Err(e) ==> e is MissingProcess || e is MissingHandle,
    {
        match pick {
            Pick::Table(n) => {
                let t = &self.model.tables[p];
                assert(self.model@.tables[p as int] == t@);
                let mut cands: Vec<(Handle, CapModel)> = Vec::new();
                let mut i: usize = 0;
                while i < t.len()
                    invariant
                        i <= t.len(),
                        forall|j: int| 0 <= j < t@.len() ==> obj_known(self.model.regions@, self.model.channels@, (#[trigger] t@[j]).1.obj),
                        forall|j: int| 0 <= j < cands@.len() ==> obj_known(self.model.regions@, self.model.channels@, (#[trigger] cands@[j]).1.obj) && (want_region ==> cands@[j].1.obj is Region),
                        forall|j: int| 0 <= j < cands@.len() ==> exists|k: int| 0 <= k < t@.len() && #[trigger] t@[k] == #[trigger] cands@[j],
                    decreases t.len() - i,
                {
                    let is_region = match t[i].1.obj {
                        Obj::Region(_) => true,
                        Obj::Channel(_) => false,
                    };
                    if !want_region || is_region {
                        cands.push(t[i]);
                    }
                    i = i + 1;
                }
                if cands.len() == 0 {
                    return Ok(None);
                }
                let (h, m) = cands[n % cands.len()];
                proof {
                    let j = (n % cands.len()) as int;
                    let k = choose|k: int| 0 <= k < t@.len() && #[trigger] t@[k] == #[trigger] cands@[j];
                    assert(t@[k] == (h, m));
                    if self.mirrored() {
                        assert(self.process_mirrored(p as int));
                        assert(table_has(t@, Handle(h.0)));
                        assert(self.ktable(p as int).contains_key(h.0));
                        assert(mirrors(self.k, self.model@.regions, self.model@.channels, self.ktable(p as int)[t@[k].0.0], t@[k].1));
                    }
                }
                match self.kernel_cap(p, h) {
                    Ok(cap) => Ok(Some((cap, m, false))),
                    Err(e) => Err(e),
                }
            },
            Pick::Stash(n) => {
                let mut cands: Vec<(Capability, CapModel)> = Vec::new();
                let mut i: usize = 0;
                while i < self.stash.len()
                    invariant
                        i <= self.stash@.len(),
                        self.wf(),
                        forall|j: int| 0 <= j < cands@.len() ==> obj_known(self.model.regions@, self.model.channels@, (#[trigger] cands@[j]).1.obj) && (want_region ==> cands@[j].1.obj is Region),
                        forall|j: int| 0 <= j < cands@.len() ==> exists|k: int| 0 <= k < self.stash@.len() && #[trigger] self.stash@[k] == #[trigger] cands@[j],
                    decreases self.stash@.len() - i,
                {
                    let is_region = match self.stash[i].1.obj {
                        Obj::Region(_) => true,
                        Obj::Channel(_) => false,
                    };
                    if !want_region || is_region {
                        cands.push(self.stash[i]);
                    }
                    i = i + 1;
                }
                if cands.len() == 0 {
                    return Ok(None);
                }
                let (cap, m) = cands[n % cands.len()];
                proof {
                    let j = (n % cands.len()) as int;
                    let k = choose|k: int| 0 <= k < self.stash@.len() && #[trigger] self.stash@[k] == #[trigger] cands@[j];
                    assert(self.stash@[k] == (cap, m));
                }
                Ok(Some((cap, m, true)))
            },
        }
    }

    /// Resolves `(n-th region handle, kind)` pairs against process `p`'s
    /// model into concrete handles and grants.
    fn concrete_grants(&self, p: usize, grants: &Vec<(usize, GrantKind)>) -> (r: Vec<(Handle, GrantKind)>)
        requires
            self.wf(),
            p < self.pids@.len(),
        ensures
            r@.len() <= grants@.len(),
            forall|i: int|
                0 <= i < r@.len() ==> table_has(self.model@.tables[p as int], (#[trigger] r@[i]).0) && held_of(
                    self.model@.tables[p as int],
                    r@[i].0,
                ).obj is Region,
    {
        let t = &self.model.tables[p];
        assert(self.model@.tables[p as int] == t@);
        assert(table_sorted(t@));
        let mut hs: Vec<Handle> = Vec::new();
        let mut i: usize = 0;
        while i < t.len()
            invariant
                i <= t.len(),
                table_sorted(t@),
                forall|j: int| 0 <= j < hs@.len() ==> table_has(t@, #[trigger] hs@[j]) && held_of(t@, hs@[j]).obj is Region,
            decreases t.len() - i,
        {
            match t[i].1.obj {
                Obj::Region(_) => {
                    proof {
                        lemma_held_of(t@, i as int);
                    }
                    hs.push(t[i].0);
                },
                Obj::Channel(_) => {},
            }
            i = i + 1;
        }
        let mut r: Vec<(Handle, GrantKind)> = Vec::new();
        if hs.len() == 0 {
            return r;
        }
        let mut i: usize = 0;
        while i < grants.len()
            invariant
                i <= grants.len(),
                hs@.len() > 0,
                r@.len() == i,
                forall|j: int| 0 <= j < hs@.len() ==> table_has(t@, #[trigger] hs@[j]) && held_of(t@, hs@[j]).obj is Region,
                forall|j: int| 0 <= j < r@.len() ==> table_has(t@, (#[trigger] r@[j]).0) && held_of(t@, r@[j].0).obj is Region,
            decreases grants.len() - i,
        {
            let (n, kind) = grants[i];
            let h = hs[n % hs.len()];
            r.push((h, kind));
            i = i + 1;
        }
        r
    }

    /// Whether every region the batch moves can still move to a new epoch
    /// in the model.
    fn moves_fit(&self, p: usize, gs: &Vec<(Handle, GrantKind)>) -> (r: bool)
        requires
            self.wf(),
            p < self.pids@.len(),
            forall|i: int|
                0 <= i < gs@.len() ==> table_has(self.model@.tables[p as int], (#[trigger] gs@[i]).0) && held_of(
                    self.model@.tables[p as int],
                    gs@[i].0,
                ).obj is Region,
        ensures
            r ==> batch_ok(self.model@, p as int, gs@),
            !r ==> exists|x: int| 0 <= x < self.model@.regions.len() && (#[trigger] self.model@.regions[x]).epoch == u64::MAX,
    {
        let t = &self.model.tables[p];
        assert(self.model@.tables[p as int] == t@);
        assert(table_sorted(t@));
        let mut i: usize = 0;
        while i < gs.len()
            invariant
                i <= gs@.len(),
                table_sorted(t@),
                self.model@.tables[p as int] == t@,
                forall|j: int| 0 <= j < t@.len() ==> obj_known(self.model.regions@, self.model.channels@, (#[trigger] t@[j]).1.obj),
                forall|j: int|
                    0 <= j < gs@.len() ==> table_has(t@, (#[trigger] gs@[j]).0) && held_of(t@, gs@[j].0).obj is Region,
                forall|j: int|
                    0 <= j < i && (#[trigger] gs@[j]).1 is Move ==> self.model@.regions[held_of(t@, gs@[j].0).obj->Region_0 as int].epoch
                        < u64::MAX,
            decreases gs@.len() - i,
        {
            let (h, kind) = gs[i];
            let is_move = match kind {
                GrantKind::Move => true,
                _ => false,
            };
            if is_move {
                match find_handle(t, h) {
                    None => {
                        assert(table_has(t@, gs@[i as int].0));
                        return false;
                    },
                    Some(k) => {
                        match t[k].1.obj {
                            Obj::Region(r) => {
                                if self.model.regions[r].epoch == u64::MAX {
                                    assert(self.model@.regions[r as int].epoch == u64::MAX);
                                    return false;
                                }
                            },
                            Obj::Channel(_) => {
                                proof {
                                    lemma_held_of(t@, k as int);
                                }
                                return false;
                            },
                        }
                    },
                }
            }
            i = i + 1;
        }
        true
    }

    /// Tallies an access and counts a stale replay refused as dead.
    fn note_access(&mut self, kind: usize, stale: bool, ok: bool, refused_as_dead: bool)
        requires
            old(self).wf(),
            kind < 9,
            old(self).counters_below(u64::MAX as int),
        ensures
            final(self).wf(),
            final(self).pids@ == old(self).pids@,
            final(self).model@ == old(self).model@,
            final(self).stamps@.len() == old(self).stamps@.len(),
            counters_grew_by_one(old(self).tallies@, final(self).tallies@),
            final(self).stale_refused <= old(self).stale_refused + 1,
            *final(self) == (World { tallies: final(self).tallies, stale_refused: final(self).stale_refused, ..*old(self) }),
            final(self).stale_refused == old(self).stale_refused + (if stale && refused_as_dead {
                1int
            } else {
                0int
            }),
            final(self).tallies@ == old(self).tallies@.update(
                kind as int,
                if ok {
                    ((old(self).tallies@[kind as int].0 + 1) as u64, old(self).tallies@[kind as int].1)
                } else {
                    (old(self).tallies@[kind as int].0, (old(self).tallies@[kind as int].1 + 1) as u64)
                },
            ),
    {
        self.tally(kind, ok);
        if stale && refused_as_dead {
            self.stale_refused = self.stale_refused + 1;
        }
    }

    /// Writes `len` copies of `byte` at `offset` into region `r` of the model.
    fn write_model(&mut self, r: usize, offset: usize, len: usize, byte: u8)
        requires
            old(self).wf(),
            r < old(self).model.regions@.len(),
            offset + len <= old(self).model.regions@[r as int].bytes@.len(),
        ensures
            final(self).wf(),
            final(self).pids@ == old(self).pids@,
            final(self).model.regions@.len() == old(self).model.regions@.len(),
            final(self).tallies@ == old(self).tallies@,
            final(self).stale_refused == old(self).stale_refused,
            final(self).stamps@.len() == old(self).stamps@.len(),
            *final(self) == (World { model: final(self).model, ..*old(self) }),
            final(self).model@.channels == old(self).model@.channels,
            final(self).model@.tables == old(self).model@.tables,
            final(self).model@.regions == old(self).model@.regions.update(
                r as int,
                RegionModel { bytes: final(self).model@.regions[r as int].bytes, ..old(self).model@.regions[r as int] },
            ),
            final(self).model@.regions[r as int].bytes@ == crate::memory::written(
                old(self).model@.regions[r as int].bytes@,
                offset as int,
                Seq::new(len as nat, |i: int| byte),
            ),
    {
        let ghost before = self.model.regions@;
        let mut reg = self.model.regions.remove(r);
        let ghost orig = reg.bytes@;
        let mut i: usize = 0;
        while i < len
            invariant
                i <= len,
                offset + len <= reg.bytes.len(),
                orig.len() == reg.bytes@.len(),
                reg.bytes@ == crate::memory::written(orig, offset as int, Seq::new(i as nat, |j: int| byte)),
                r < before.len(),
                reg.object == before[r as int].object,
                reg.alive == before[r as int].alive,
                reg.epoch == before[r as int].epoch,
            decreases len - i,
        {
            reg.bytes.set(offset + i, byte);
            i = i + 1;
            proof {
                assert(reg.bytes@ =~= crate::memory::written(orig, offset as int, Seq::new(i as nat, |j: int| byte)));
            }
        }
        assert(reg.object == before[r as int].object && reg.alive == before[r as int].alive && reg.epoch == before[r as int].epoch);
        self.model.regions.insert(r, reg);
        proof {
            assert(self.model.regions@ =~= before.update(r as int, self.model.regions@[r as int]));
            assert(self.model@.tables == old(self).model@.tables);
            Self::lemma_known_grow(old(self).model.regions@, old(self).model.channels@, self.model.regions@);
        }
    }

    /// Mirroring survives a change that touches only region `r`'s object:
    /// its epoch, its existence or its bytes, in the kernel, the registry
    /// and the model alike.
    proof fn lemma_mirrored_region(a: World, b: World, r: int)
        requires
            a.mirrored(),
            b.wf(),
            0 <= r < a.model@.regions.len(),
            a.sched == b.sched,
            a.pids@ == b.pids@,
            a.stash@ == b.stash@,
            b.model@.channels == a.model@.channels,
            b.model@.tables == a.model@.tables,
            b.model@.regions.len() == a.model@.regions.len(),
            b.model@.regions[r].object == a.model@.regions[r].object,
            forall|x: int| 0 <= x < a.model@.regions.len() && x != r ==> b.model@.regions[x] == a.model@.regions[x],
            b.k.next_id() == a.k.next_id(),
            forall|id: u64|
                id != a.model@.regions[r].object.id() ==> (#[trigger] b.k.epochs().contains_key(id)
                    == a.k.epochs().contains_key(id) && b.k.epochs()[id] == a.k.epochs()[id]),
            forall|id: u64|
                id != a.model@.regions[r].object.id() ==> (#[trigger] b.mem.regions().contains_key(id)
                    == a.mem.regions().contains_key(id) && b.mem.regions()[id] == a.mem.regions()[id]),
            b.k.epochs().contains_key(a.model@.regions[r].object.id()) <==> b.model@.regions[r].alive,
            b.model@.regions[r].alive ==> b.k.epochs()[a.model@.regions[r].object.id()] == b.model@.regions[r].epoch,
            b.mem.regions().contains_key(a.model@.regions[r].object.id()) <==> b.model@.regions[r].alive,
            b.model@.regions[r].alive ==> b.mem.regions()[a.model@.regions[r].object.id()] == b.model@.regions[r].bytes@,
            b.chans.queues() == a.chans.queues(),
            b.in_flight@ == a.in_flight@,
            b.stamps@ == a.stamps@,
        ensures
            b.mirrored(),
    {
        let ra = a.model@.regions;
        let rb = b.model@.regions;
        let ch = a.model@.channels;
        let idr = ra[r].object.id();
        assert(a.model.regions.len() == ra.len());
        assert(a.model.channels.len() == ch.len());
        assert forall|o: Obj| obj_known(rb, ch, o) implies model_object(rb, ch, o) == model_object(ra, ch, o) by {
            if let Obj::Region(x) = o {
                if x as int != r {
                    assert(rb[x as int] == ra[x as int]);
                }
            }
        }
        assert forall|o: Obj| #[trigger] obj_known(rb, ch, o) ==> model_object(rb, ch, o).id() < b.k.next_id() by {
            if obj_known(rb, ch, o) {
                assert(obj_known(ra, ch, o));
            }
        }
        assert forall|cap: Capability, c: CapModel|
            mirrors(a.k, ra, ch, cap, c) && obj_known(ra, ch, c.obj) implies mirrors(b.k, rb, ch, cap, c) by {
            match c.obj {
                Obj::Region(x) => {
                    if x as int != r {
                        assert(rb[x as int] == ra[x as int]);
                        assert(obj_known(ra, ch, Obj::Region(r as usize)));
                        assert(model_object(ra, ch, Obj::Region(x)) != model_object(ra, ch, Obj::Region(r as usize)));
                        ra[x as int].object.lemma_id_injective(ra[r].object);
                        assert(b.k.epochs().contains_key(cap.object().id()) == a.k.epochs().contains_key(cap.object().id()));
                        assert(b.k.epochs().contains_key(cap.object().id()) <==> rb[x as int].alive);
                        assert(rb[x as int].alive ==> b.k.epochs()[cap.object().id()] == rb[x as int].epoch);
                    } else {
                        assert(cap.object().id() == idr);
                        assert(b.k.epochs().contains_key(cap.object().id()) <==> rb[x as int].alive);
                        assert(rb[x as int].alive ==> b.k.epochs()[cap.object().id()] == rb[x as int].epoch);
                    }
                    assert(cap.object() == model_object(rb, ch, c.obj));
                    assert(mirrors(b.k, rb, ch, cap, c));
                },
                Obj::Channel(y) => {
                    assert(obj_known(ra, ch, Obj::Region(r as usize)));
                    assert(model_object(ra, ch, Obj::Channel(y)) != model_object(ra, ch, Obj::Region(r as usize)));
                    ch[y as int].lemma_id_injective(ra[r].object);
                    assert(cap.object() == ch[y as int]);
                    assert(cap.object().id() != idr);
                    assert(b.k.epochs().contains_key(cap.object().id()) == a.k.epochs().contains_key(cap.object().id()));
                    assert(a.k.is_live(cap));
                    assert(b.k.is_live(cap));
                    assert(mirrors(b.k, rb, ch, cap, c));
                },
            }
        }
        assert forall|p: int| 0 <= p < b.pids@.len() implies #[trigger] b.process_mirrored(p) by {
            assert(a.process_mirrored(p));
            assert(a.ktable(p) == b.ktable(p));
            let t = b.model@.tables[p];
            assert forall|i: int| 0 <= i < t.len() implies mirrors(b.k, rb, ch, b.ktable(p)[(#[trigger] t[i]).0.0], t[i].1) by {
                assert(mirrors(a.k, ra, ch, a.ktable(p)[t[i].0.0], t[i].1));
                assert(obj_known(ra, ch, t[i].1.obj));
            }
        }
        assert forall|i: int| 0 <= i < b.stash@.len() implies mirrors(b.k, rb, ch, (#[trigger] b.stash@[i]).0, b.stash@[i].1) by {
            assert(mirrors(a.k, ra, ch, a.stash@[i].0, a.stash@[i].1));
            assert(obj_known(ra, ch, a.stash@[i].1.obj));
        }
        assert forall|x: int| 0 <= x < rb.len() implies #[trigger] b.region_mirrored(x) && b.region_epoch_mirrored(x) by {
            assert(a.region_mirrored(x));
            assert(a.region_epoch_mirrored(x));
            if x != r {
                assert(obj_known(ra, ch, Obj::Region(x as usize)));
                assert(obj_known(ra, ch, Obj::Region(r as usize)));
                assert(model_object(ra, ch, Obj::Region(x as usize)) != model_object(ra, ch, Obj::Region(r as usize)));
                ra[x].object.lemma_id_injective(ra[r].object);
                assert(rb[x] == ra[x]);
                assert(b.mem.regions().contains_key(rb[x].object.id()) == a.mem.regions().contains_key(rb[x].object.id()));
                assert(b.k.epochs().contains_key(rb[x].object.id()) == a.k.epochs().contains_key(rb[x].object.id()));
            } else {
                assert(rb[x].object.id() == idr);
            }
        }
        assert forall|c: int| 0 <= c < ch.len() implies b.k.epochs().contains_key(#[trigger] ch[c].id()) && b.k.epochs()[ch[c].id()] == 0 by {
            assert(a.channel_mirrored(c));
            assert(obj_known(ra, ch, Obj::Channel(c as usize)));
            assert(obj_known(ra, ch, Obj::Region(r as usize)));
            assert(model_object(ra, ch, Obj::Channel(c as usize)) != model_object(ra, ch, Obj::Region(r as usize)));
            ch[c].lemma_id_injective(ra[r].object);
        }
        assert forall|x: int| 0 <= x < rb.len() implies #[trigger] b.region_epoch_mirrored(x) by {
            assert(b.region_mirrored(x) && b.region_epoch_mirrored(x));
        }
        Self::lemma_channels_kept(a, b);
        assert forall|p: int| 0 <= p < b.pids@.len() implies #[trigger] b.holds_channels(p) by {
            assert(a.holds_channels(p));
        }
        assert forall|c: int| 0 <= c < ch.len() implies !b.mem.regions().contains_key((#[trigger] ch[c]).id()) by {
            assert(!a.mem.regions().contains_key(ch[c].id()));
            assert(obj_known(ra, ch, Obj::Channel(c as usize)));
            assert(obj_known(ra, ch, Obj::Region(r as usize)));
            assert(model_object(ra, ch, Obj::Channel(c as usize)) != model_object(ra, ch, Obj::Region(r as usize)));
            ch[c].lemma_id_injective(ra[r].object);
        }
        assert(objects_distinct(rb, ch));
    }

    /// Mirroring survives writing `new_bytes` into a live region of both the
    /// registry and the model.
    proof fn lemma_mirrored_bytes(a: World, b: World, r: int, new_bytes: Seq<u8>)
        requires
            a.mirrored(),
            b.wf(),
            0 <= r < a.model@.regions.len(),
            a.model@.regions[r].alive,
            a.k == b.k,
            a.sched == b.sched,
            a.pids@ == b.pids@,
            a.stash@ == b.stash@,
            b.model@.channels == a.model@.channels,
            b.model@.tables == a.model@.tables,
            b.model@.regions.len() == a.model@.regions.len(),
            b.model@.regions[r].bytes@ == new_bytes,
            forall|x: int|
                0 <= x < a.model@.regions.len() ==> (#[trigger] b.model@.regions[x]).object == a.model@.regions[x].object
                    && b.model@.regions[x].alive == a.model@.regions[x].alive && b.model@.regions[x].epoch
                    == a.model@.regions[x].epoch,
            forall|x: int| 0 <= x < a.model@.regions.len() && x != r ==> b.model@.regions[x] == a.model@.regions[x],
            b.mem.regions() == a.mem.regions().insert(a.model@.regions[r].object.id(), new_bytes),
            b.chans.queues() == a.chans.queues(),
            b.in_flight@ == a.in_flight@,
            b.stamps@ == a.stamps@,
        ensures
            b.mirrored(),
    {
        let ra = a.model@.regions;
        let rb = b.model@.regions;
        let ch = a.model@.channels;
        assert(a.model.regions.len() == ra.len());
        assert(a.model.channels.len() == ch.len());
        assert forall|o: Obj| obj_known(rb, ch, o) implies model_object(rb, ch, o) == model_object(ra, ch, o) by {
            if let Obj::Region(x) = o {
                assert(rb[x as int].object == ra[x as int].object);
            }
        }
        assert forall|o: Obj| #[trigger] obj_known(rb, ch, o) ==> model_object(rb, ch, o).id() < b.k.next_id() by {
            if obj_known(rb, ch, o) {
                assert(obj_known(ra, ch, o));
            }
        }
        assert forall|cap: Capability, c: CapModel| mirrors(a.k, ra, ch, cap, c) && obj_known(ra, ch, c.obj) implies mirrors(b.k, rb, ch, cap, c) by {
            if let Obj::Region(x) = c.obj {
                assert(rb[x as int].object == ra[x as int].object);
            }
        }
        assert forall|p: int| 0 <= p < b.pids@.len() implies #[trigger] b.process_mirrored(p) by {
            assert(a.process_mirrored(p));
            assert(a.ktable(p) == b.ktable(p));
            let t = b.model@.tables[p];
            assert forall|i: int| 0 <= i < t.len() implies mirrors(b.k, rb, ch, b.ktable(p)[(#[trigger] t[i]).0.0], t[i].1) by {
                assert(mirrors(a.k, ra, ch, a.ktable(p)[t[i].0.0], t[i].1));
                assert(obj_known(ra, ch, t[i].1.obj));
            }
        }
        assert forall|i: int| 0 <= i < b.stash@.len() implies mirrors(b.k, rb, ch, (#[trigger] b.stash@[i]).0, b.stash@[i].1) by {
            assert(mirrors(a.k, ra, ch, a.stash@[i].0, a.stash@[i].1));
            assert(obj_known(ra, ch, a.stash@[i].1.obj));
        }
        assert forall|x: int| 0 <= x < rb.len() implies #[trigger] b.region_mirrored(x) && b.region_epoch_mirrored(x) by {
            assert(a.region_mirrored(x));
            assert(a.region_epoch_mirrored(x));
            if x != r {
                assert(obj_known(ra, ch, Obj::Region(x as usize)));
                assert(obj_known(ra, ch, Obj::Region(r as usize)));
                assert(model_object(ra, ch, Obj::Region(x as usize)) != model_object(ra, ch, Obj::Region(r as usize)));
                ra[x].object.lemma_id_injective(ra[r].object);
            }
        }
        assert forall|c: int| 0 <= c < ch.len() implies b.k.epochs().contains_key(#[trigger] ch[c].id()) && b.k.epochs()[ch[c].id()] == 0 by {
            assert(a.channel_mirrored(c));
        }
        assert forall|x: int| 0 <= x < rb.len() implies #[trigger] b.region_epoch_mirrored(x) by {
            assert(b.region_mirrored(x) && b.region_epoch_mirrored(x));
        }
        Self::lemma_channels_kept(a, b);
        assert forall|p: int| 0 <= p < b.pids@.len() implies #[trigger] b.holds_channels(p) by {
            assert(a.holds_channels(p));
        }
        assert forall|c: int| 0 <= c < ch.len() implies !b.mem.regions().contains_key((#[trigger] ch[c]).id()) by {
            assert(!a.mem.regions().contains_key(ch[c].id()));
            assert(obj_known(ra, ch, Obj::Channel(c as usize)));
            assert(obj_known(ra, ch, Obj::Region(r as usize)));
            assert(model_object(ra, ch, Obj::Channel(c as usize)) != model_object(ra, ch, Obj::Region(r as usize)));
            ch[c].lemma_id_injective(ra[r].object);
        }
        assert(objects_distinct(rb, ch));
    }
}


/// How many of the first `n` modelled regions are alive.
pub open spec fn alive_upto(regions: Seq<RegionModel>, n: nat) -> nat
    decreases n,
{
    if n == 0 {
        0
    } else {
        alive_upto(regions, (n - 1) as nat) + if regions[n - 1].alive {
            1nat
        } else {
            0nat
        }
    }
}

/// The first capability among the first `n` of the stash that the model
/// says can read region `r`.
pub open spec fn auditor_upto(
    stash: Seq<(Capability, CapModel)>,
    regions: Seq<RegionModel>,
    channels: Seq<ObjectId>,
    r: int,
    n: nat,
) -> Option<Capability>
    decreases n,
{
    if n == 0 {
        None
    } else {
        match auditor_upto(stash, regions, channels, r, (n - 1) as nat) {
            Some(c) => Some(c),
            None => if stash[n - 1].1.obj == Obj::Region(r as usize) && predicted_check(
                regions,
                channels,
                stash[n - 1].1,
                Rights::READ(),
            ) is Ok {
                Some(stash[n - 1].0)
            } else {
                None
            },
        }
    }
}

/// The model of a fresh world: three channels and two live regions of
/// eight zero bytes on epoch 0, and one process holding, under handles 0 to
/// 4, a capability with every right but `EXECUTE` to each channel in turn
/// and then to each region.
pub open spec fn initial_model(m: ChaosModelView) -> bool {
    let full = Rights::from_bits(27);
    &&& m.channels.len() == CHANNELS
    &&& m.regions.len() == 2
    &&& forall|r: int|
        0 <= r < 2 ==> (#[trigger] m.regions[r]).alive && m.regions[r].epoch == 0 && m.regions[r].bytes@ == Seq::new(
            8,
            |i: int| 0u8,
        )
    &&& m.tables.len() == 1
    &&& m.tables[0] == seq![
        (Handle(0), CapModel { obj: Obj::Channel(0), rights: full, epoch: 0 }),
        (Handle(1), CapModel { obj: Obj::Channel(1), rights: full, epoch: 0 }),
        (Handle(2), CapModel { obj: Obj::Channel(2), rights: full, epoch: 0 }),
        (Handle(3), CapModel { obj: Obj::Region(0), rights: full, epoch: 0 }),
        (Handle(4), CapModel { obj: Obj::Region(1), rights: full, epoch: 0 }),
    ]
}

/// The tally slot of an operation's kind, in name order.
pub open spec fn op_kind(op: OpView) -> u64 {
    match op {
        OpView::Destroy { .. } => 0,
        OpView::Local { .. } => 1,
        OpView::NewRegion { .. } => 2,
        OpView::Read { .. } => 3,
        OpView::Receive { .. } => 4,
        OpView::Revoke { .. } => 5,
        OpView::Send { .. } => 6,
        OpView::Spawn { .. } => 7,
        OpView::Write { .. } => 8,
    }
}

/// The process an operation acts as.
pub open spec fn op_process(op: OpView) -> usize {
    match op {
        OpView::NewRegion { p, .. } => p,
        OpView::Spawn { parent, .. } => parent,
        OpView::Send { p, .. } => p,
        OpView::Receive { p, .. } => p,
        OpView::Read { p, .. } => p,
        OpView::Write { p, .. } => p,
        OpView::Revoke { p, .. } => p,
        OpView::Destroy { p, .. } => p,
        OpView::Local { p } => p,
    }
}

/// One step of 64-bit FNV-1a: hash `h` takes in byte `b`.
pub open spec fn fnv_step(h: u64, b: u64) -> u64 {
    (((h ^ b) as nat * 0x0000_0100_0000_01B3nat) % 0x1_0000_0000_0000_0000nat) as u64
}

/// FNV-1a of hash `h` over the low `n` bytes of `v`, least significant
/// first.
pub open spec fn fnv_bytes(h: u64, v: u64, n: nat) -> u64
    decreases n,
{
    if n == 0 {
        h
    } else {
        fnv_bytes(fnv_step(h, v % 256), v / 256, (n - 1) as nat)
    }
}

/// FNV-1a of hash `h` over each word of `words` in turn, eight bytes a
/// word.
pub open spec fn fnv_words(h: u64, words: Seq<u64>) -> u64
    decreases words.len(),
{
    if words.len() == 0 {
        h
    } else {
        fnv_words(fnv_bytes(h, words[0], 8), words.drop_first())
    }
}

/// Some entry of table `t` names `obj`.
pub open spec fn table_holds(t: Seq<(Handle, CapModel)>, obj: Obj) -> bool {
    exists|i: int| 0 <= i < t.len() && (#[trigger] t[i]).1.obj == obj
}

/// `after` follows `before` by one operation: every counter grew by at most
/// one.
pub closed spec fn counted(before: World, after: World) -> bool {
    &&& after.wf()
    &&& counters_grew_by_one(before.tallies@, after.tallies@)
    &&& after.stale_refused <= before.stale_refused + 1
}

/// `after` follows `before` by one operation that has not been logged yet.
pub closed spec fn stepped(before: World, after: World) -> bool {
    &&& counted(before, after)
    &&& after.log == before.log
}

impl World {
    fn exec_new_region(&mut self, p: usize, size: usize) -> (r: Result<(), Mismatch>)
        requires
            old(self).wf(),
            old(self).counters_below(u64::MAX as int),
            p < old(self).pids@.len(),
        ensures
            old(self).mirrored() && old(self).traced() && r is Ok ==> final(self).traced(),
            forall|b: int| #[trigger] old(self).bounded(b) ==> final(self).bounded(b + 1),
            stepped(*old(self), *final(self)),
            r == Err::<(), Mismatch>(Mismatch::Exhausted) ==> old(self).at_limit(),
            old(self).mirrored() ==> (r is Ok && final(self).mirrored()) || r == Err::<(), Mismatch>(Mismatch::Exhausted),
    {
        match self.add_region(p, size) {
            Ok(()) => {},
            Err(e) => {
                return Err(e);
            },
        }
        let ghost before = *self;
        self.tally(KIND_NEW_REGION, true);
        proof {
            if old(self).mirrored() {
                Self::lemma_mirrored_same(before, *self);
            }
            if old(self).traced() {
                old(self).sched.lemma_wf();
                assert forall|q: int| 0 <= q < old(self).pids@.len() implies #[trigger] self.same_clock(*old(self), q) by {
                    assert(old(self).clock_traced(q));
                    let x = old(self).pids@[q].0 as int;
                    assert(self.sched.procs()[x].clock_state() == old(self).sched.procs()[x].clock_state());
                }
                Self::lemma_traced_frame(*old(self), *self);
            }
        }
        Ok(())
    }

    /// Allocates a region of `size` zero bytes for process `p` and models it.
    fn add_region(&mut self, p: usize, size: usize) -> (r: Result<(), Mismatch>)
        requires
            old(self).wf(),
            p < old(self).pids@.len(),
        ensures
            final(self).trace@ == old(self).trace@,
            final(self).stamps@ == old(self).stamps@,
            final(self).preds@ == old(self).preds@,
            final(self).last_event@ == old(self).last_event@,
            final(self).sched.next_pid() == old(self).sched.next_pid(),
            final(self).sched.procs().len() == old(self).sched.procs().len(),
            forall|i: int|
                0 <= i < old(self).sched.procs().len() ==> (#[trigger] final(self).sched.procs()[i]).clock_state() == old(
                    self,
                ).sched.procs()[i].clock_state(),
            forall|b: int| #[trigger] old(self).bounded(b) ==> final(self).bounded(b + 1),
            final(self).log == old(self).log,
            final(self).wf(),
            final(self).pids@ == old(self).pids@,
            final(self).tallies@ == old(self).tallies@,
            final(self).stale_refused == old(self).stale_refused,
            r == Err::<(), Mismatch>(Mismatch::Exhausted) ==> old(self).at_limit(),
            old(self).mirrored() ==> (r is Ok && final(self).mirrored()) || r == Err::<(), Mismatch>(Mismatch::Exhausted),
    {
        if self.k.next_object_id() == u64::MAX {
            return Err(Mismatch::Exhausted);
        }
        let cap = self.mem.new_region(&mut self.k, size);
        let bytes = zeros(size);
        self.model.regions.push(RegionModel { object: cap.object(), alive: true, epoch: 0, bytes });
        let r = self.model.regions.len() - 1;
        proof {
            Self::lemma_known_grow(old(self).model.regions@, old(self).model.channels@, self.model.regions@);
            assert(self.model@.tables == old(self).model@.tables);
            if old(self).mirrored() {
                let a = *old(self);
                let ra = a.model@.regions;
                let rb = self.model@.regions;
                let ch = a.model@.channels;
                let nid = cap.object().id();
                assert(nid == a.k.next_id());
                assert(a.model.regions.len() == ra.len());
                assert forall|x: int| 0 <= x < ra.len() implies rb[x] == ra[x] by {
                }
                assert forall|o: Obj| obj_known(ra, ch, o) implies model_object(rb, ch, o) == model_object(ra, ch, o) && model_object(ra, ch, o).id() < nid by {
                }
                assert forall|o: Obj| #[trigger] obj_known(rb, ch, o) ==> model_object(rb, ch, o).id() < self.k.next_id() by {
                    if obj_known(rb, ch, o) && !obj_known(ra, ch, o) {
                        assert(o == Obj::Region(r));
                    }
                }
                assert forall|cap2: Capability, c: CapModel|
                    mirrors(a.k, ra, ch, cap2, c) && obj_known(ra, ch, c.obj) implies mirrors(self.k, rb, ch, cap2, c) by {
                    assert(cap2.object().id() < nid);
                }
                assert forall|q: int| 0 <= q < self.pids@.len() implies #[trigger] self.process_mirrored(q) by {
                    assert(a.process_mirrored(q));
                    assert(self.ktable(q) == a.ktable(q));
                    let t = self.model@.tables[q];
                    assert forall|i: int| 0 <= i < t.len() implies mirrors(self.k, rb, ch, self.ktable(q)[(#[trigger] t[i]).0.0], t[i].1) by {
                        assert(mirrors(a.k, ra, ch, a.ktable(q)[t[i].0.0], t[i].1));
                        assert(obj_known(ra, ch, t[i].1.obj));
                    }
                }
                assert forall|i: int| 0 <= i < self.stash@.len() implies mirrors(self.k, rb, ch, (#[trigger] self.stash@[i]).0, self.stash@[i].1) by {
                    assert(mirrors(a.k, ra, ch, a.stash@[i].0, a.stash@[i].1));
                    assert(obj_known(ra, ch, a.stash@[i].1.obj));
                }
                assert forall|x: int| 0 <= x < rb.len() implies #[trigger] self.region_mirrored(x) by {
                    if x < ra.len() {
                        assert(a.region_mirrored(x));
                        assert(obj_known(ra, ch, Obj::Region(x as usize)));
                        assert(ra[x].object.id() < nid);
                    } else {
                        assert(x == r);
                    }
                }
                assert forall|x: int| 0 <= x < rb.len() implies #[trigger] self.region_epoch_mirrored(x) by {
                    if x < ra.len() {
                        assert(a.region_epoch_mirrored(x));
                        assert(obj_known(ra, ch, Obj::Region(x as usize)));
                        assert(ra[x].object.id() < nid);
                    } else {
                        assert(x == r);
                    }
                }
                assert forall|c: int| 0 <= c < ch.len() implies self.k.epochs().contains_key(#[trigger] ch[c].id())
                    && self.k.epochs()[ch[c].id()] == 0 by {
                    assert(a.channel_mirrored(c));
                    assert(obj_known(ra, ch, Obj::Channel(c as usize)));
                }
                Self::lemma_channels_kept(a, *self);
                assert forall|q: int| 0 <= q < self.pids@.len() implies #[trigger] self.holds_channels(q) by {
                    assert(a.holds_channels(q));
                }
                assert forall|c: int| 0 <= c < ch.len() implies !self.mem.regions().contains_key((#[trigger] ch[c]).id()) by {
                    assert(!a.mem.regions().contains_key(ch[c].id()));
                    assert(obj_known(ra, ch, Obj::Channel(c as usize)));
                }
                assert forall|x: Obj, y: Obj| obj_known(rb, ch, x) && obj_known(rb, ch, y) && x != y implies model_object(rb, ch, x) != model_object(rb, ch, y) by {
                    if obj_known(ra, ch, x) && obj_known(ra, ch, y) {
                    } else if obj_known(ra, ch, x) {
                        assert(model_object(ra, ch, x).id() < nid);
                        model_object(rb, ch, x).lemma_id_injective(model_object(rb, ch, y));
                    } else if obj_known(ra, ch, y) {
                        assert(model_object(ra, ch, y).id() < nid);
                        model_object(rb, ch, x).lemma_id_injective(model_object(rb, ch, y));
                    }
                }
                assert(objects_distinct(rb, ch));
                assert forall|id: u64| #[trigger] self.mem.regions().contains_key(id) implies exists|x: int|
                    0 <= x < rb.len() && rb[x].alive && (#[trigger] rb[x].object).id() == id by {
                    if id == nid {
                        assert(rb[r as int].object.id() == id);
                    } else {
                        assert(a.mem.regions().contains_key(id));
                        let x = choose|x: int| 0 <= x < ra.len() && ra[x].alive && (#[trigger] ra[x].object).id() == id;
                        assert(rb[x] == ra[x]);
                    }
                }
                assert(self.mirrored());
                assert(mirrors(self.k, rb, ch, cap, CapModel { obj: Obj::Region(r), rights: cap.rights(), epoch: 0 }));
            }
        }
        let ghost mid = *self;
        let res = self.install(p, cap, CapModel { obj: Obj::Region(r), rights: cap.rights(), epoch: 0 });
        proof {
            assert forall|b: int| #[trigger] old(self).bounded(b) implies self.bounded(b + 1) by {
                let procs = self.sched.procs();
                assert forall|i: int| 0 <= i < procs.len() implies (#[trigger] procs[i]).clock_state().time() <= 2 * (b + 1)
                    && procs[i].next_handle() <= 5 + 4 * (b + 1) by {
                    assert(mid.sched == old(self).sched);
                    assert(old(self).sched.procs()[i].next_handle() <= 5 + 4 * b);
                }
                assert forall|x: int| 0 <= x < self.model@.regions.len() implies (#[trigger] self.model@.regions[x]).epoch <= b + 1 by {
                    if x < old(self).model@.regions.len() {
                        assert(self.model@.regions[x] == old(self).model@.regions[x]);
                    }
                }
            }
        }
        match res {
            Ok(_) => Ok(()),
            Err(e) => Err(e),
        }
    }

    fn exec_local(&mut self, p: usize) -> (r: Result<(), Mismatch>)
        requires
            old(self).wf(),
            old(self).counters_below(u64::MAX as int),
            p < old(self).pids@.len(),
        ensures
            old(self).mirrored() && old(self).traced() && r is Ok ==> final(self).traced(),
            stepped(*old(self), *final(self)),
            r == Err::<(), Mismatch>(Mismatch::Exhausted) ==> old(self).at_limit(),
            old(self).mirrored() ==> (r is Ok && final(self).mirrored()) || r == Err::<(), Mismatch>(Mismatch::Exhausted),
            forall|b: int| #[trigger] old(self).bounded(b) ==> final(self).bounded(b + 1),
    {
        let pid = self.pids[p];
        let ghost s0 = self.sched;
        proof {
            s0.lemma_wf();
        }
        proof {
            if old(self).mirrored() {
                assert(old(self).process_mirrored(p as int));
            }
        }
        match self.sched.process(pid) {
            None => {
                return Err(Mismatch::MissingProcess { process: p });
            },
            Some(pr) => {
                if pr.clock().lamport() == u64::MAX {
                    return Err(Mismatch::Exhausted);
                }
            },
        }
        let proc = match self.sched.process_mut(pid) {
            Some(proc) => proc,
            None => {
                return Err(Mismatch::MissingProcess { process: p });
            },
        };
        let ghost table0 = proc.table();
        let s = proc.record_local_event();
        proof {
            Scheduler::lemma_update_wf(s0, self.sched, pid.0 as int, self.sched.procs()[pid.0 as int]);
        }
        let ghost after_event = *self;
        let ghost before_rec = *self;
        self.record_event(p, s, Vec::new());
        self.tally(KIND_LOCAL, true);
        proof {
            if old(self).mirrored() && old(self).traced() {
                let a = *old(self);
                let x = pid.0 as int;
                assert forall|q: int| 0 <= q < a.pids@.len() && q != p implies #[trigger] self.same_clock(a, q) by {
                    assert(a.process_mirrored(q));
                    if q < p {
                        assert(a.pids@[q] != a.pids@[p as int]);
                    } else {
                        assert(a.pids@[p as int] != a.pids@[q]);
                    }
                    assert(self.sched.procs()[a.pids@[q].0 as int] == s0.procs()[a.pids@[q].0 as int]);
                }
                assert(Seq::<usize>::empty() + (match a.last_event@[p as int] {
                    Some(prev) => seq![prev],
                    None => Seq::<usize>::empty(),
                }) =~= (match a.last_event@[p as int] {
                    Some(prev) => seq![prev],
                    None => Seq::<usize>::empty(),
                }));
                Self::lemma_traced_event(
                    a,
                    *self,
                    p as int,
                    None,
                    s,
                    s0.procs()[x].clock_state(),
                    self.sched.procs()[x].clock_state(),
                );
            }
        }
        proof {
            if old(self).mirrored() {
                assert(self.sched == after_event.sched);
                assert(self.sched.procs() == s0.procs().update(pid.0 as int, self.sched.procs()[pid.0 as int]));
                assert(self.sched.procs()[pid.0 as int].table() == table0);
                assert forall|q: int| 0 <= q < old(self).pids@.len() implies #[trigger] self.same_table(*old(self), q) by {
                    assert(old(self).process_mirrored(q));
                    if q != p {
                        if q < p {
                            assert(old(self).pids@[q] != old(self).pids@[p as int]);
                        } else {
                            assert(old(self).pids@[p as int] != old(self).pids@[q]);
                        }
                    }
                }
                Self::lemma_mirrored_frame(*old(self), *self);
            }
            assert forall|b: int| #[trigger] old(self).bounded(b) implies self.bounded(b + 1) by {
                let procs = self.sched.procs();
                assert forall|i: int| 0 <= i < procs.len() implies (#[trigger] procs[i]).clock_state().time() <= 2 * (b + 1)
                    && procs[i].next_handle() <= 5 + 4 * (b + 1) by {
                    if i != pid.0 {
                        assert(procs[i] == s0.procs()[i]);
                    }
                }
            }
        }
        Ok(())
    }

    fn exec_spawn(&mut self, parent: usize, grants: &Vec<(usize, GrantKind)>) -> (r: Result<(), Mismatch>)
        requires
            old(self).wf(),
            old(self).counters_below(u64::MAX as int),
            parent < old(self).pids@.len(),
            grants@.len() < 4,
        ensures
            old(self).mirrored() && old(self).traced() && r is Ok ==> final(self).traced(),
            forall|b: int| #[trigger] old(self).bounded(b) ==> final(self).bounded(b + 1),
            stepped(*old(self), *final(self)),
            r == Err::<(), Mismatch>(Mismatch::Exhausted) ==> old(self).at_limit(),
            old(self).mirrored() ==> (r is Ok && final(self).mirrored()) || r == Err::<(), Mismatch>(Mismatch::Exhausted),
    {
        let ghost mir = old(self).mirrored();
        let ghost t0 = old(self).model@.tables[parent as int];
        if self.pids.len() == MAX_PROCESSES {
            proof {
                if old(self).traced() {
                    Self::lemma_traced_same(*old(self), *self);
                }
            }
            return Ok(());
        }
        let concrete = self.concrete_grants(parent, grants);
        if !self.moves_fit(parent, &concrete) {
            return Err(Mismatch::Exhausted);
        }
        let mut all_grants: Vec<Grant> = Vec::new();
        let mut c: usize = 0;
        while c < CHANNELS
            invariant
                c <= CHANNELS,
                all_grants@.len() == c,
                self.wf(),
                parent < self.pids@.len(),
                *self == *old(self),
                mir == old(self).mirrored(),
                t0 == old(self).model@.tables[parent as int],
                mir ==> forall|x: int|
                    0 <= x < c ==> (#[trigger] all_grants@[x]) is Derive && all_grants@[x]->Derive_1 == Rights::from_bits(11)
                        && exists|i: int| 0 <= i < t0.len() && (#[trigger] t0[i]).0 == all_grants@[x]->Derive_0 && t0[i].1.obj == Obj::Channel(x as usize),
            decreases CHANNELS - c,
        {
            proof {
                if mir {
                    assert(old(self).holds_channels(parent as int));
                    assert(table_holds(t0, Obj::Channel(c)));
                }
            }
            let h = match self.channel_handle(parent, c) {
                Ok(h) => h,
                Err(e) => {
                    return Err(e);
                },
            };
            let rights = Rights::READ() | Rights::WRITE() | Rights::GRANT();
            proof {
                assert((1u32 | 2u32) | 8u32 == 11u32) by (bit_vector);
                assert(rights.bits() == 11);
                assert(Rights::from_bits(rights.bits()) == rights);
            }
            all_grants.push(Grant::Derive(h, rights));
            c = c + 1;
        }
        let ghost pre = all_grants@;
        let mut kg = to_grants(&concrete);
        all_grants.append(&mut kg);
        let ghost gs = concrete@;
        let ppid = self.pids[parent];
        let ghost s0 = self.sched;
        proof {
            s0.lemma_wf();
            assert(all_grants@ == pre + to_grants_spec(gs));
            if mir {
                assert(old(self).process_mirrored(parent as int));
            }
        }
        if (self.sched.process_count() as u64) == u64::MAX {
            return Err(Mismatch::Exhausted);
        }
        match self.sched.process(ppid) {
            None => {
                return Err(Mismatch::MissingProcess { process: parent });
            },
            Some(pr) => {
                if pr.clock().lamport() >= u64::MAX - 1 || !kernel_moves_fit(&self.k, pr, &all_grants) {
                    proof {
                        assert(self.sched.procs()[ppid.0 as int] == *pr);
                    }
                    return Err(Mismatch::Exhausted);
                }
            },
        }
        proof {
            if mir {
                let a = *old(self);
                assert(a.process_mirrored(parent as int));
                Self::lemma_spawn_batch(a, parent as int, gs, pre);
                Self::lemma_batch_mirrored(a, parent as int, gs);
                law_model_predicts_grants(
                    a.k,
                    a.model@.regions,
                    a.model@.channels,
                    a.ktable(parent as int),
                    held_models(t0, gs),
                    gs,
                );
                assert(a.ktable(parent as int) == s0.procs()[ppid.0 as int].table());
                let held = held_models(t0, gs);
                if model_resolve(a.model@.regions, a.model@.channels, held, gs) is Some {
                    lemma_model_prefix_objects(a.model@.regions, a.model@.channels, held, gs, gs.len());
                }
            }
        }
        let predicted = self.model.apply_grants_model(parent, &concrete);
        proof {
            Self::lemma_known_grow(old(self).model.regions@, old(self).model.channels@, self.model.regions@);
        }
        let result = self.sched.spawn_child(&mut self.k, ppid, all_grants);
        let kernel_ok = match &result {
            Ok(_) => true,
            Err(_) => false,
        };
        self.tally(KIND_SPAWN, kernel_ok);
        proof {
            let a = *old(self);
            assert forall|b: int| #[trigger] a.bounded(b) implies self.bounded(b + 1) by {
                assert forall|id: u64| #[trigger] self.k.epochs().contains_key(id) implies self.k.epochs()[id] <= b + 1 by {
                    assert(a.k.epochs().contains_key(id));
                }
                assert forall|x: int| 0 <= x < self.model@.regions.len() implies (#[trigger] self.model@.regions[x]).epoch <= b + 1 by {
                    assert(a.model@.regions[x].epoch <= b);
                }
                let procs = self.sched.procs();
                assert forall|i: int| 0 <= i < procs.len() implies (#[trigger] procs[i]).clock_state().time() <= 2 * (b + 1)
                    && procs[i].next_handle() <= 5 + 4 * (b + 1) by {
                    if result is Ok {
                        let np = procs[ppid.0 as int];
                        assert(procs.drop_last()[ppid.0 as int] == np);
                        if i == procs.len() - 1 {
                            assert(procs[i] == procs.last());
                        } else if i != ppid.0 {
                            assert(procs[i] == procs.drop_last()[i]);
                            assert(procs[i] == s0.procs()[i]);
                        }
                    }
                }
            }
        }
        match (result, predicted) {
            (Err(_), None) => {
                proof {
                    if mir {
                        assert forall|q: int| 0 <= q < old(self).pids@.len() implies #[trigger] self.same_table(*old(self), q) by {
                            assert(old(self).process_mirrored(q));
                        }
                        Self::lemma_mirrored_frame(*old(self), *self);
                        if old(self).traced() {
                            Self::lemma_traced_same(*old(self), *self);
                        }
                    }
                }
                Ok(())
            },
            (Ok(child), Some(delivered)) => {
                let ghost s1 = self.sched;
                proof {
                    s1.lemma_wf();
                }
                let parent_stamp = match self.sched.process(ppid) {
                    Some(pr) => pr.clock(),
                    None => {
                        return Err(Mismatch::MissingProcess { process: parent });
                    },
                };
                let spawn_event = self.record_event(parent, parent_stamp, Vec::new());
                let ghost mid = *self;
                proof {
                    let a = *old(self);
                    if mir && a.traced() {
                        let x = ppid.0 as int;
                        assert forall|q: int| 0 <= q < a.pids@.len() && q != parent implies #[trigger] self.same_clock(a, q) by {
                            assert(a.process_mirrored(q));
                            if q < parent {
                                assert(a.pids@[q] != a.pids@[parent as int]);
                            } else {
                                assert(a.pids@[parent as int] != a.pids@[q]);
                            }
                            assert(s1.procs().drop_last()[a.pids@[q].0 as int] == s1.procs()[a.pids@[q].0 as int]);
                        }
                        assert(s1.procs().drop_last()[x] == s1.procs()[x]);
                        assert(Seq::<usize>::empty() + (match a.last_event@[parent as int] {
                            Some(prev) => seq![prev],
                            None => Seq::<usize>::empty(),
                        }) =~= (match a.last_event@[parent as int] {
                            Some(prev) => seq![prev],
                            None => Seq::<usize>::empty(),
                        }));
                        Self::lemma_traced_event(
                            a,
                            *self,
                            parent as int,
                            None,
                            parent_stamp,
                            s0.procs()[x].clock_state(),
                            self.sched.procs()[x].clock_state(),
                        );
                        assert forall|i: int| 0 <= i < self.trace@.len() implies (#[trigger] self.trace@[i]).0.0 < child.0 by {
                            if i < a.trace@.len() {
                                assert(self.trace@[i] == a.trace@[i]);
                            }
                        }
                    }
                }
                proof {
                    self.sched.lemma_wf();
                }
                let ghost kc = s1.procs()[child.0 as int].table();
                let ghost nall = pre.len() + gs.len();
                let handles = match self.sched.process(child) {
                    Some(pr) => pr.handles(),
                    None => {
                        return Err(Mismatch::MissingProcess { process: self.pids.len() });
                    },
                };
                proof {
                    if mir {
                        assert(s1.procs()[child.0 as int] == s1.procs().last());
                        assert forall|hh: u32| hh < nall implies #[trigger] lists_handle(handles@, hh) by {
                            assert(kc.contains_key(hh));
                        }
                        lemma_handles_dense(handles@, nall);
                    }
                }
                if handles.len() < CHANNELS || handles.len() - CHANNELS != delivered.len() {
                    return Err(Mismatch::ChildHandles { kernel: handles.len(), model: delivered.len() });
                }
                let ghost w1 = *self;
                let mut table: Vec<(Handle, CapModel)> = Vec::new();
                let mut caps: Vec<(Capability, CapModel)> = Vec::new();
                let mut i: usize = 0;
                while i < handles.len()
                    invariant
                        i <= handles@.len(),
                        handles@.len() == CHANNELS + delivered@.len(),
                        self.wf(),
                        stepped(*old(self), *self),
                        self.pids@.len() < MAX_PROCESSES,
                        forall|a: int, b: int| 0 <= a < b < handles@.len() ==> (#[trigger] handles@[a]).0 < (#[trigger] handles@[b]).0,
                        forall|j: int| 0 <= j < delivered@.len() ==> obj_known(self.model.regions@, self.model.channels@, (#[trigger] delivered@[j]).obj),
                        table@.len() == i,
                        caps@.len() == i,
                        forall|j: int| 0 <= j < i ==> (#[trigger] table@[j]).0 == handles@[j],
                        forall|j: int| 0 <= j < i ==> obj_known(self.model.regions@, self.model.channels@, (#[trigger] table@[j]).1.obj),
                        forall|j: int| 0 <= j < i ==> obj_known(self.model.regions@, self.model.channels@, (#[trigger] caps@[j]).1.obj),
                        mir == old(self).mirrored(),
                        forall|b: int| #[trigger] old(self).bounded(b) ==> self.bounded(b + 1),
                        mir ==> {
                            &&& *self == w1
                            &&& w1.sched.lookup(child) == Some(w1.sched.procs()[child.0 as int])
                            &&& w1.sched.procs()[child.0 as int].table() == kc
                            &&& forall|hh: u32| #[trigger] kc.contains_key(hh) <==> hh < handles@.len()
                            &&& forall|j: int| 0 <= j < handles@.len() ==> (#[trigger] handles@[j]).0 == j
                            &&& forall|j: int|
                                0 <= j < i ==> #[trigger] table@[j] == (Handle(j as u32), if j < CHANNELS {
                                    CapModel { obj: Obj::Channel(j as usize), rights: Rights::from_bits(11), epoch: 0 }
                                } else {
                                    delivered@[j - CHANNELS]
                                })
                            &&& forall|j: int| 0 <= j < i ==> #[trigger] caps@[j] == (kc[j as u32], table@[j].1)
                        },
                    decreases handles@.len() - i,
                {
                    let h = handles[i];
                    let m = if i < CHANNELS {
                        let rights = Rights::READ() | Rights::WRITE() | Rights::GRANT();
                        proof {
                            assert((1u32 | 2u32) | 8u32 == 11u32) by (bit_vector);
                            assert(rights.bits() == 11);
                            assert(Rights::from_bits(rights.bits()) == rights);
                        }
                        CapModel { obj: Obj::Channel(i), rights, epoch: 0 }
                    } else {
                        delivered[i - CHANNELS]
                    };
                    let cap = match self.sched.process(child) {
                        Some(pr) => match pr.capability(h) {
                            Some(cap) => cap,
                            None => {
                                return Err(Mismatch::MissingHandle { process: self.pids.len(), handle: h });
                            },
                        },
                        None => {
                            return Err(Mismatch::MissingProcess { process: self.pids.len() });
                        },
                    };
                    table.push((h, m));
                    caps.push((cap, m));
                    proof {
                        if mir {
                            assert(h == Handle(i as u32));
                        }
                    }
                    i = i + 1;
                }
                let child_index = self.pids.len();
                let ghost mt = self.model@;
                let ghost st = self.stash@;
                self.pids.push(child);
                self.model.tables.push(table);
                self.last_event.push(None);
                let mut caps = caps;
                let ghost cs = caps@;
                let ghost tc = table@;
                self.stash.append(&mut caps);
                proof {
                    let mm = self.model@;
                    let m0 = self.model@;
                    assert forall|q: int| 0 <= q < mm.tables.len() implies {
                        &&& table_sorted(#[trigger] mm.tables[q])
                        &&& forall|i: int| 0 <= i < mm.tables[q].len() ==> obj_known(mm.regions, mm.channels, (#[trigger] mm.tables[q][i]).1.obj)
                    } by {
                        if q == child_index {
                            assert(mm.tables[q] == tc);
                            assert forall|a: int, b: int| 0 <= a < b < mm.tables[q].len() implies (#[trigger] mm.tables[q][a]).0.0 < (
                            #[trigger] mm.tables[q][b]).0.0 by {
                                assert(handles@[a].0 < handles@[b].0);
                            }
                        } else {
                            assert(mm.tables[q] == mt.tables[q]);
                        }
                    }
                    assert forall|i: int| 0 <= i < self.stash@.len() implies obj_known(
                        self.model.regions@,
                        self.model.channels@,
                        (#[trigger] self.stash@[i]).1.obj,
                    ) by {
                        if i < st.len() {
                            assert(self.stash@[i] == st[i]);
                        } else {
                            assert(self.stash@[i] == cs[i - st.len()]);
                        }
                    }
                }
                let birth = match self.sched.process(child) {
                    Some(pr) => pr.clock(),
                    None => {
                        return Err(Mismatch::MissingProcess { process: child_index });
                    },
                };
                let mut preds: Vec<usize> = Vec::new();
                preds.push(spawn_event);
                self.record_event(child_index, birth, preds);
                proof {
                    if mir {
                        let a = *old(self);
                        let n0 = a.pids@.len() as int;
                        assert(self.model@.tables =~= mt.tables.push(tc));
                        assert(self.stash@ =~= a.stash@ + Seq::new(tc.len(), |i: int| (self.ktable(n0)[i as u32], tc[i].1)));
                        assert forall|q: int| 0 <= q < a.pids@.len() implies #[trigger] a.pids@[q] != child by {
                            assert(a.process_mirrored(q));
                        }
                        assert forall|q: int| 0 <= q < a.pids@.len() && q != parent implies #[trigger] self.same_table(a, q) by {
                            assert(a.process_mirrored(q));
                            assert(s1.procs().drop_last()[a.pids@[q].0 as int] == s1.procs()[a.pids@[q].0 as int]);
                            if q < parent {
                                assert(a.pids@[q] != a.pids@[parent as int]);
                            } else {
                                assert(a.pids@[parent as int] != a.pids@[q]);
                            }
                        }
                        assert(s1.procs().drop_last()[ppid.0 as int] == s1.procs()[ppid.0 as int]);
                        Self::lemma_mirrored_spawned(a, *self, parent as int, gs, pre, tc, child);
                        if a.traced() {
                            assert forall|q: int| 0 <= q < mid.pids@.len() implies (#[trigger] mid.pids@[q]) != child by {
                                assert(a.process_mirrored(q));
                            }
                            assert(self.last_event@ =~= mid.last_event@.push(Some(mid.stamps@.len() as usize)));
                            assert(mid.stamps@[spawn_event as int] == parent_stamp);
                            Self::lemma_traced_birth(mid, *self, child, spawn_event as int, birth);
                        }
                    }
                }
                Ok(())
            },
            (r, pr) => Err(
                Mismatch::Spawn {
                    kernel_ok: match r {
                        Ok(_) => true,
                        Err(_) => false,
                    },
                    model_ok: match pr {
                        Some(_) => true,
                        None => false,
                    },
                },
            ),
        }
    }
}


impl World {
    fn exec_send(&mut self, p: usize, channel: usize, grants: &Vec<(usize, GrantKind)>) -> (r: Result<(), Mismatch>)
        requires
            old(self).wf(),
            old(self).counters_below(u64::MAX as int),
            p < old(self).pids@.len(),
            channel < CHANNELS,
            grants@.len() < 4,
        ensures
            old(self).mirrored() && old(self).traced() && r is Ok ==> final(self).traced(),
            forall|b: int| #[trigger] old(self).bounded(b) ==> final(self).bounded(b + 1),
            stepped(*old(self), *final(self)),
            r == Err::<(), Mismatch>(Mismatch::Exhausted) ==> old(self).at_limit(),
            old(self).mirrored() ==> (r is Ok && final(self).mirrored()) || r == Err::<(), Mismatch>(Mismatch::Exhausted),
    {
        let ghost mir = old(self).mirrored();
        let ghost t0 = old(self).model@.tables[p as int];
        proof {
            if mir {
                assert(old(self).holds_channels(p as int));
                assert(table_holds(t0, Obj::Channel(channel)));
                assert(old(self).process_mirrored(p as int));
            }
        }
        let concrete = self.concrete_grants(p, grants);
        if !self.moves_fit(p, &concrete) {
            return Err(Mismatch::Exhausted);
        }
        let h = match self.channel_handle(p, channel) {
            Ok(h) => h,
            Err(e) => {
                return Err(e);
            },
        };
        let ghost i0 = choose|i: int| 0 <= i < t0.len() && (#[trigger] t0[i]).0 == h && t0[i].1.obj == Obj::Channel(channel);
        proof {
            if mir {
                assert(table_has(t0, h));
                assert(Handle(h.0) == h);
                assert(self.ktable(p as int).contains_key(h.0));
            }
        }
        let chan = match self.kernel_cap(p, h) {
            Ok(c) => c,
            Err(e) => {
                return Err(e);
            },
        };
        let ghost qid = chan.object().id();
        proof {
            if mir {
                assert(mirrors(self.k, self.model@.regions, self.model@.channels, chan, t0[i0].1));
                assert(t0[i0].1.rights.spec_contains(Rights::from_bits(11)));
                let b = chan.rights().bits();
                assert(b & 11u32 == 11u32 ==> b & 2u32 == 2u32) by (bit_vector);
                assert(Rights::from_bits(11).bits() == 11);
                assert(Rights::WRITE().bits() == 2);
                assert(self.k.check_result(chan, Rights::WRITE()) is Ok);
                assert(self.model@.channels[channel as int] == chan.object());
                assert(self.channel_mirrored(channel as int));
                assert(self.chans.queues().contains_key(qid));
            }
        }
        let kg = to_grants(&concrete);
        let pid = self.pids[p];
        let ghost s0 = self.sched;
        proof {
            s0.lemma_wf();
        }
        match self.sched.process(pid) {
            None => {
                return Err(Mismatch::MissingProcess { process: p });
            },
            Some(pr) => {
                if pr.clock().lamport() == u64::MAX || !kernel_moves_fit(&self.k, pr, &kg) {
                    proof {
                        assert(self.sched.procs()[pid.0 as int] == *pr);
                    }
                    return Err(Mismatch::Exhausted);
                }
            },
        }
        let ghost gs = concrete@;
        proof {
            if mir {
                Self::lemma_batch_mirrored(*old(self), p as int, gs);
                law_model_predicts_grants(
                    self.k,
                    self.model@.regions,
                    self.model@.channels,
                    self.ktable(p as int),
                    held_models(t0, gs),
                    gs,
                );
                assert(self.ktable(p as int) == s0.procs()[pid.0 as int].table());
            }
        }
        let predicted = self.model.apply_grants_model(p, &concrete);
        proof {
            Self::lemma_known_grow(old(self).model.regions@, old(self).model.channels@, self.model.regions@);
        }
        let ghost fl0 = self.in_flight@;
        let proc = match self.sched.process_mut(pid) {
            Some(proc) => proc,
            None => {
                return Err(Mismatch::MissingProcess { process: p });
            },
        };
        let result = self.chans.send(&mut self.k, &chan, proc, kg, 0);
        proof {
            Scheduler::lemma_update_wf(s0, self.sched, pid.0 as int, self.sched.procs()[pid.0 as int]);
        }
        let kernel_ok = match &result {
            Ok(_) => true,
            Err(_) => false,
        };
        self.tally(KIND_SEND, kernel_ok);
        proof {
            let a = *old(self);
            let qs = self.chans.queues();
            assert forall|b: int| #[trigger] a.bounded(b) implies self.bounded(b + 1) by {
                assert forall|id: u64| #[trigger] self.k.epochs().contains_key(id) implies self.k.epochs()[id] <= b + 1 by {
                    assert(a.k.epochs().contains_key(id));
                }
                assert forall|x: int| 0 <= x < self.model@.regions.len() implies (#[trigger] self.model@.regions[x]).epoch <= b + 1 by {
                    assert(a.model@.regions[x].epoch <= b);
                }
                let procs = self.sched.procs();
                assert forall|i: int| 0 <= i < procs.len() implies (#[trigger] procs[i]).clock_state().time() <= 2 * (b + 1)
                    && procs[i].next_handle() <= 5 + 4 * (b + 1) by {
                    if i != pid.0 {
                        assert(procs[i] == s0.procs()[i]);
                    }
                }
                assert forall|id: u64, j: int| #[trigger] qs.contains_key(id) && 0 <= j < qs[id].len() implies (#[trigger] qs[id][j]).stamp.lamport()
                    <= 2 * (b + 1) && qs[id][j].capabilities.len() <= 3 by {
                    assert(a.chans.queues().contains_key(id));
                    if result is Ok && id == qid && j == a.chans.queues()[id].len() {
                        assert(qs[id][j] == qs[id].last());
                    } else if result is Ok && id == qid {
                        assert(qs[id][j] == qs[id].drop_last()[j]);
                    }
                }
            }
        }
        match (result, predicted) {
            (Err(_), None) => {
                proof {
                    if mir {
                        assert(self.sched.procs() =~= s0.procs());
                        assert forall|q: int| 0 <= q < old(self).pids@.len() implies #[trigger] self.same_table(*old(self), q) by {
                            assert(old(self).process_mirrored(q));
                        }
                        Self::lemma_mirrored_frame(*old(self), *self);
                        if old(self).traced() {
                            assert forall|q: int| 0 <= q < old(self).pids@.len() implies #[trigger] self.same_clock(*old(self), q) by {
                                assert(old(self).clock_traced(q));
                            }
                            Self::lemma_traced_frame(*old(self), *self);
                        }
                    }
                }
                Ok(())
            },
            (Ok(stamp), Some(caps)) => {
                let ev = self.record_event(p, stamp, Vec::new());
                let ghost fl = self.in_flight@;
                let mut q = self.in_flight.remove(channel);
                let ghost q0 = q@;
                q.push((ev, caps));
                self.in_flight.insert(channel, q);
                proof {
                    assert(self.in_flight@ =~= fl.update(channel as int, self.in_flight@[channel as int]));
                    assert forall|c: int, i: int| 0 <= c < CHANNELS && 0 <= i < self.in_flight@[c]@.len() implies {
                        &&& (#[trigger] self.in_flight@[c]@[i]).0 < self.stamps@.len()
                        &&& forall|j: int|
                            0 <= j < self.in_flight@[c]@[i].1@.len() ==> obj_known(
                                self.model.regions@,
                                self.model.channels@,
                                (#[trigger] self.in_flight@[c]@[i].1@[j]).obj,
                            )
                    } by {
                        if c == channel {
                            if i < q0.len() {
                                assert(self.in_flight@[c]@[i] == fl[c]@[i]);
                            }
                        } else {
                            assert(self.in_flight@[c] == fl[c]);
                        }
                    }
                    if mir {
                        let a = *old(self);
                        let id = a.model@.channels[channel as int].id();
                        let bq = self.chans.queues()[id];
                        assert(bq =~= a.chans.queues()[id].push(bq.last()));
                        assert(self.in_flight@[channel as int]@ =~= a.in_flight@[channel as int]@.push((ev, caps)));
                        assert forall|x: int| 0 <= x < CHANNELS && x != channel implies #[trigger] self.in_flight@[x] == a.in_flight@[x] by {
                        }
                        assert forall|q: int| 0 <= q < a.pids@.len() && q != p implies #[trigger] self.same_table(a, q) by {
                            assert(a.process_mirrored(q));
                            if q < p {
                                assert(a.pids@[q] != a.pids@[p as int]);
                            } else {
                                assert(a.pids@[p as int] != a.pids@[q]);
                            }
                        }
                        Self::lemma_mirrored_sent(a, *self, p as int, channel as int, gs, bq.last(), stamp, (ev, caps));
                        if a.traced() {
                            let x = pid.0 as int;
                            assert forall|q: int| 0 <= q < a.pids@.len() && q != p implies #[trigger] self.same_clock(a, q) by {
                                assert(a.process_mirrored(q));
                                assert(a.pids@[q] != a.pids@[p as int]);
                                assert(self.sched.procs()[a.pids@[q].0 as int] == s0.procs()[a.pids@[q].0 as int]);
                            }
                            assert(Seq::<usize>::empty() + (match a.last_event@[p as int] {
                                Some(prev) => seq![prev],
                                None => Seq::<usize>::empty(),
                            }) =~= (match a.last_event@[p as int] {
                                Some(prev) => seq![prev],
                                None => Seq::<usize>::empty(),
                            }));
                            Self::lemma_traced_event(
                                a,
                                *self,
                                p as int,
                                None,
                                stamp,
                                s0.procs()[x].clock_state(),
                                self.sched.procs()[x].clock_state(),
                            );
                        }
                    }
                }
                Ok(())
            },
            (r, pr) => Err(
                Mismatch::Send {
                    kernel_ok: match r {
                        Ok(_) => true,
                        Err(_) => false,
                    },
                    model_ok: match pr {
                        Some(_) => true,
                        None => false,
                    },
                },
            ),
        }
    }

    fn exec_receive(&mut self, p: usize, channel: usize) -> (r: Result<(), Mismatch>)
        requires
            old(self).wf(),
            old(self).counters_below(u64::MAX as int),
            p < old(self).pids@.len(),
            channel < CHANNELS,
        ensures
            old(self).mirrored() && old(self).traced() && r is Ok ==> final(self).traced(),
            forall|b: int| #[trigger] old(self).bounded(b) ==> final(self).bounded(b + 1),
            stepped(*old(self), *final(self)),
            r == Err::<(), Mismatch>(Mismatch::Exhausted) ==> old(self).at_limit(),
            old(self).mirrored() ==> (r is Ok && final(self).mirrored()) || r == Err::<(), Mismatch>(Mismatch::Exhausted),
    {
        let ghost mir = old(self).mirrored();
        let ghost t0 = old(self).model@.tables[p as int];
        proof {
            if mir {
                assert(old(self).holds_channels(p as int));
                assert(table_holds(t0, Obj::Channel(channel)));
                assert(old(self).process_mirrored(p as int));
            }
        }
        let h = match self.channel_handle(p, channel) {
            Ok(h) => h,
            Err(e) => {
                return Err(e);
            },
        };
        let ghost i0 = choose|i: int| 0 <= i < t0.len() && (#[trigger] t0[i]).0 == h && t0[i].1.obj == Obj::Channel(channel);
        proof {
            if mir {
                assert(table_has(t0, h));
                assert(Handle(h.0) == h);
                assert(self.ktable(p as int).contains_key(h.0));
            }
        }
        let chan = match self.kernel_cap(p, h) {
            Ok(c) => c,
            Err(e) => {
                return Err(e);
            },
        };
        let ghost qid = chan.object().id();
        proof {
            if mir {
                assert(mirrors(self.k, self.model@.regions, self.model@.channels, chan, t0[i0].1));
                assert(t0[i0].1.rights.spec_contains(Rights::from_bits(11)));
                let b = chan.rights().bits();
                assert(b & 11u32 == 11u32 ==> b & 1u32 == 1u32) by (bit_vector);
                assert(Rights::from_bits(11).bits() == 11);
                assert(Rights::READ().bits() == 1);
                assert(self.k.check_result(chan, Rights::READ()) is Ok);
                assert(self.model@.channels[channel as int] == chan.object());
                assert(self.channel_mirrored(channel as int));
                assert(self.chans.queues().contains_key(qid));
            }
        }
        let pid = self.pids[p];
        let ghost s0 = self.sched;
        proof {
            s0.lemma_wf();
        }
        match self.sched.process(pid) {
            None => {
                return Err(Mismatch::MissingProcess { process: p });
            },
            Some(pr) => {
                if pr.clock().lamport() == u64::MAX {
                    return Err(Mismatch::Exhausted);
                }
                match self.chans.front(&chan) {
                    Some((t, n)) => {
                        if t == u64::MAX || n >= u32::MAX as usize || pr.next_handle_number() as u64 + n as u64
                            >= u32::MAX as u64 {
                            return Err(Mismatch::Exhausted);
                        }
                    },
                    None => {},
                }
            },
        }
        let ghost nh = s0.procs()[pid.0 as int].next_handle();
        let ghost msgs0 = self.chans.queues()[qid];
        proof {
            s0.procs()[pid.0 as int].lemma_wf();
            if mir {
                assert(old(self).ktable(p as int) == s0.procs()[pid.0 as int].table());
            }
        }
        let proc = match self.sched.process_mut(pid) {
            Some(proc) => proc,
            None => {
                return Err(Mismatch::MissingProcess { process: p });
            },
        };
        let result = self.chans.receive(&self.k, &chan, proc);
        proof {
            Scheduler::lemma_update_wf(s0, self.sched, pid.0 as int, self.sched.procs()[pid.0 as int]);
        }
        let ghost fl = self.in_flight@;
        let mut q = self.in_flight.remove(channel);
        let ghost q0 = q@;
        let expected = if q.len() > 0 {
            Some(q.remove(0))
        } else {
            None
        };
        self.in_flight.insert(channel, q);
        proof {
            assert(self.in_flight@ =~= fl.update(channel as int, self.in_flight@[channel as int]));
            assert forall|c: int, i: int| 0 <= c < CHANNELS && 0 <= i < self.in_flight@[c]@.len() implies {
                &&& (#[trigger] self.in_flight@[c]@[i]).0 < self.stamps@.len()
                &&& forall|j: int|
                    0 <= j < self.in_flight@[c]@[i].1@.len() ==> obj_known(
                        self.model.regions@,
                        self.model.channels@,
                        (#[trigger] self.in_flight@[c]@[i].1@[j]).obj,
                    )
            } by {
                if c == channel {
                    assert(self.in_flight@[c]@[i] == fl[c]@[i + 1]);
                } else {
                    assert(self.in_flight@[c] == fl[c]);
                }
            }
            if q0.len() > 0 {
                assert(expected == Some(fl[channel as int]@[0]));
                assert(self.in_flight@[channel as int]@ =~= fl[channel as int]@.drop_first());
            } else {
                assert(self.in_flight@ =~= fl);
            }
            if mir {
                assert(old(self).channel_mirrored(channel as int));
                assert(msgs0.len() == q0.len());
                assert(fl == old(self).in_flight@);
            }
        }
        let delivery = match result {
            Err(e) => {
                return Err(Mismatch::ReceiveFailed(e));
            },
            Ok(d) => d,
        };
        let delivered = match &delivery {
            Some(_) => true,
            None => false,
        };
        self.tally(KIND_RECEIVE, delivered);
        proof {
            let a = *old(self);
            let qs = self.chans.queues();
            assert forall|b: int| #[trigger] a.bounded(b) implies self.bounded(b + 1) by {
                let procs = self.sched.procs();
                assert forall|i: int| 0 <= i < procs.len() implies (#[trigger] procs[i]).clock_state().time() <= 2 * (b + 1)
                    && procs[i].next_handle() <= 5 + 4 * (b + 1) by {
                    if i != pid.0 {
                        assert(procs[i] == s0.procs()[i]);
                    } else if delivery is Some {
                        assert(a.chans.queues().contains_key(qid));
                        assert(msgs0[0].stamp.lamport() <= 2 * b);
                        assert(msgs0[0].capabilities.len() <= 3);
                    }
                }
                assert forall|id: u64, j: int| #[trigger] qs.contains_key(id) && 0 <= j < qs[id].len() implies (#[trigger] qs[id][j]).stamp.lamport()
                    <= 2 * (b + 1) && qs[id][j].capabilities.len() <= 3 by {
                    assert(a.chans.queues().contains_key(id));
                    if delivery is Some && id == qid {
                        assert(qs[id][j] == a.chans.queues()[id][j + 1]);
                    }
                }
            }
        }
        match (delivery, expected) {
            (None, None) => {
                proof {
                    if mir {
                        assert(self.sched.procs() =~= s0.procs());
                        assert forall|q: int| 0 <= q < old(self).pids@.len() implies #[trigger] self.same_table(*old(self), q) by {
                            assert(old(self).process_mirrored(q));
                        }
                        Self::lemma_mirrored_frame(*old(self), *self);
                        if old(self).traced() {
                            assert forall|q: int| 0 <= q < old(self).pids@.len() implies #[trigger] self.same_clock(*old(self), q) by {
                                assert(old(self).clock_traced(q));
                            }
                            Self::lemma_traced_frame(*old(self), *self);
                        }
                    }
                }
                Ok(())
            },
            (Some(d), Some((ev, caps))) => {
                proof {
                    if mir {
                        assert(old(self).message_mirrored(msgs0[0], fl[channel as int]@[0]));
                    }
                }
                if !same_stamp(&d.sent_at, &self.stamps[ev]) {
                    return Err(Mismatch::SendStamp);
                }
                if d.handles.len() != caps.len() {
                    return Err(Mismatch::DeliveredCaps { kernel: d.handles.len(), model: caps.len() });
                }
                let ghost w0 = *self;
                let ghost mcaps = msgs0[0].capabilities@;
                proof {
                    if mir {
                        assert(w0.ktable(p as int) == granted(old(self).ktable(p as int), nh, mcaps));
                        assert forall|x: Handle| table_has(t0, x) implies x.0 < nh by {
                            assert(old(self).process_mirrored(p as int));
                            assert(Handle(x.0) == x);
                            assert(old(self).ktable(p as int).contains_key(x.0));
                        }
                    }
                }
                let mut i: usize = 0;
                while i < caps.len()
                    invariant
                        i <= caps@.len(),
                        d.handles@.len() == caps@.len(),
                        self.wf(),
                        stepped(*old(self), *self),
                        p < self.pids@.len(),
                        ev < self.stamps@.len(),
                        forall|j: int| 0 <= j < caps@.len() ==> obj_known(self.model.regions@, self.model.channels@, (#[trigger] caps@[j]).obj),
                        mir == old(self).mirrored(),
                        forall|b: int| #[trigger] old(self).bounded(b) ==> self.bounded(b + 1),
                        mir ==> {
                            &&& mcaps.len() == caps@.len()
                            &&& forall|j: int| 0 <= j < d.handles@.len() ==> (#[trigger] d.handles@[j]).0 == nh + j
                            &&& nh + caps@.len() < u32::MAX
                            &&& w0.sched.lookup(w0.pids@[p as int]) is Some
                            &&& w0.ktable(p as int) == granted(old(self).ktable(p as int), nh, mcaps)
                            &&& w0.model@.tables[p as int] == t0
                            &&& p < w0.model@.tables.len()
                            &&& forall|x: Handle| table_has(t0, x) ==> x.0 < nh
                            &&& self.sched == w0.sched
                            &&& self.k == w0.k
                            &&& self.mem == w0.mem
                            &&& self.chans == w0.chans
                            &&& self.in_flight@ == w0.in_flight@
                            &&& self.stamps@ == w0.stamps@
                            &&& self.trace@ == w0.trace@
                            &&& self.preds@ == w0.preds@
                            &&& self.last_event@ == w0.last_event@
                            &&& self.pids@ == w0.pids@
                            &&& self.model@.regions == w0.model@.regions
                            &&& self.model@.channels == w0.model@.channels
                            &&& self.model@.tables == w0.model@.tables.update(p as int, self.model@.tables[p as int])
                            &&& forall|x: Handle| #[trigger] table_has(self.model@.tables[p as int], x) <==> (table_has(t0, x) || nh <= x.0 < nh + i)
                            &&& forall|k: int|
                                0 <= k < self.model@.tables[p as int].len() ==> t0.contains(#[trigger] self.model@.tables[p as int][k]) || (nh
                                    <= self.model@.tables[p as int][k].0.0 < nh + i && self.model@.tables[p as int][k].1
                                    == caps@[self.model@.tables[p as int][k].0.0 - nh])
                            &&& forall|k: int| 0 <= k < t0.len() ==> self.model@.tables[p as int].contains(#[trigger] t0[k])
                            &&& self.stash@ == w0.stash@ + Seq::new(i as nat, |j: int| (mcaps[j], caps@[j]))
                        },
                    decreases caps@.len() - i,
                {
                    let hh = d.handles[i];
                    proof {
                        if mir {
                            assert(hh.0 == nh + i);
                            assert(self.sched.lookup(self.pids@[p as int]) is Some);
                            assert(self.ktable(p as int).contains_key(hh.0));
                        }
                    }
                    let cap = match self.kernel_cap(p, hh) {
                        Ok(c) => c,
                        Err(e) => {
                            return Err(e);
                        },
                    };
                    let ghost tb = self.model@.tables[p as int];
                    proof {
                        if mir {
                            assert(cap == mcaps[i as int]);
                            if table_has(tb, hh) {
                                assert(table_has(t0, hh) || nh <= hh.0 < nh + i);
                            }
                            assert(!table_has(tb, hh));
                        }
                    }
                    self.mirror(p, hh, cap, caps[i]);
                    proof {
                        if mir {
                            let ta = self.model@.tables[p as int];
                            assert forall|x: Handle| #[trigger] table_has(ta, x) <==> (table_has(t0, x) || nh <= x.0 < nh + i + 1) by {
                                assert(table_has(ta, x) <==> (table_has(tb, x) || x == hh));
                                assert(table_has(tb, x) <==> (table_has(t0, x) || nh <= x.0 < nh + i));
                                if x.0 == nh + i {
                                    assert(x == hh);
                                }
                            }
                            assert forall|k: int| 0 <= k < ta.len() implies t0.contains(#[trigger] ta[k]) || (nh <= ta[k].0.0 < nh + i + 1
                                && ta[k].1 == caps@[ta[k].0.0 - nh]) by {
                                if ta[k] != (hh, caps@[i as int]) {
                                    assert(tb.contains(ta[k]));
                                    let k2 = choose|k2: int| 0 <= k2 < tb.len() && tb[k2] == ta[k];
                                    assert(t0.contains(tb[k2]) || (nh <= tb[k2].0.0 < nh + i && tb[k2].1 == caps@[tb[k2].0.0 - nh]));
                                }
                            }
                            assert forall|k: int| 0 <= k < t0.len() implies ta.contains(#[trigger] t0[k]) by {
                                assert(tb.contains(t0[k]));
                                let k2 = choose|k2: int| 0 <= k2 < tb.len() && tb[k2] == t0[k];
                                assert(ta.contains(tb[k2]));
                            }
                            assert(self.stash@ =~= w0.stash@ + Seq::new((i + 1) as nat, |j: int| (mcaps[j], caps@[j])));
                            assert(self.model@.tables =~= w0.model@.tables.update(p as int, ta));
                        }
                    }
                    i = i + 1;
                }
                proof {
                    if mir {
                        let a = *old(self);
                        assert(self.stash@ =~= a.stash@ + Seq::new(
                            a.in_flight@[channel as int]@[0].1@.len(),
                            |j: int| (a.chans.queues()[a.model@.channels[channel as int].id()][0].capabilities@[j], a.in_flight@[channel as int]@[0].1@[j]),
                        ));
                        assert(self.ktable(p as int) == w0.ktable(p as int));
                        assert forall|q: int| 0 <= q < a.pids@.len() && q != p implies #[trigger] self.same_table(a, q) by {
                            assert(a.process_mirrored(q));
                            if q < p {
                                assert(a.pids@[q] != a.pids@[p as int]);
                            } else {
                                assert(a.pids@[p as int] != a.pids@[q]);
                            }
                        }
                        assert forall|x: int| 0 <= x < CHANNELS && x != channel implies #[trigger] self.in_flight@[x] == a.in_flight@[x] by {
                        }
                        Self::lemma_mirrored_received(a, *self, p as int, channel as int, nh);
                    }
                }
                let ghost before_rec = *self;
                let mut preds: Vec<usize> = Vec::new();
                preds.push(ev);
                self.record_event(p, d.received_at, preds);
                proof {
                    if mir {
                        assert forall|q: int| 0 <= q < before_rec.pids@.len() implies #[trigger] self.same_table(before_rec, q) by {
                            assert(before_rec.process_mirrored(q));
                        }
                        Self::lemma_mirrored_frame(before_rec, *self);
                        let a = *old(self);
                        if a.traced() {
                            let x = pid.0 as int;
                            assert forall|q: int| 0 <= q < a.pids@.len() && q != p implies #[trigger] self.same_clock(a, q) by {
                                assert(a.process_mirrored(q));
                                if q < p {
                                    assert(a.pids@[q] != a.pids@[p as int]);
                                } else {
                                    assert(a.pids@[p as int] != a.pids@[q]);
                                }
                                assert(self.sched.procs()[a.pids@[q].0 as int] == s0.procs()[a.pids@[q].0 as int]);
                            }
                            let sent = a.stamps@[ev as int];
                            let m = msgs0[0];
                            assert(crate::ipc::same_stamp(m.stamp, sent));
                            let before = s0.procs()[x].clock_state();
                            let after = self.sched.procs()[x].clock_state();
                            assert forall|key: u64| #[trigger] after.counts().count(key) == (if key == before.owner().0 {
                                (crate::clock::vector::max_count(before.counts().count(key), sent.vector().count(key)) + 1) as u64
                            } else {
                                crate::clock::vector::max_count(before.counts().count(key), sent.vector().count(key))
                            }) by {
                                assert(m.stamp.vector().count(key) == sent.vector().count(key));
                            }
                            assert(crate::process::table::receive_step(before, sent, after));
                            assert(seq![ev] + (match a.last_event@[p as int] {
                                Some(prev) => seq![prev],
                                None => Seq::<usize>::empty(),
                            }) =~= seq![ev] + (match a.last_event@[p as int] {
                                Some(prev) => seq![prev],
                                None => Seq::<usize>::empty(),
                            }));
                            Self::lemma_traced_event(a, *self, p as int, Some(ev as int), d.received_at, before, after);
                        }
                    }
                }
                Ok(())
            },
            (d, e) => Err(
                Mismatch::Receive {
                    kernel_delivered: match d {
                        Some(_) => true,
                        None => false,
                    },
                    model_expected: match e {
                        Some(_) => true,
                        None => false,
                    },
                },
            ),
        }
    }

    fn exec_read(&mut self, p: usize, pick: Pick, regions_only: bool, offset: usize, len: usize) -> (r: Result<(), Mismatch>)
        requires
            old(self).wf(),
            old(self).counters_below(u64::MAX as int),
            p < old(self).pids@.len(),
        ensures
            old(self).mirrored() && old(self).traced() && r is Ok ==> final(self).traced(),
            forall|b: int| #[trigger] old(self).bounded(b) ==> final(self).bounded(b + 1),
            stepped(*old(self), *final(self)),
            r == Err::<(), Mismatch>(Mismatch::Exhausted) ==> old(self).at_limit(),
            old(self).mirrored() ==> r is Ok && final(self).mirrored(),
    {
        let (cap, m, stale) = match self.pick_cap(p, pick, regions_only) {
            Err(e) => {
                return Err(e);
            },
            Ok(None) => {
                {
                proof {
                    if old(self).traced() {
                        Self::lemma_traced_same(*old(self), *self);
                    }
                }
                return Ok(());
            }
            },
            Ok(Some(x)) => x,
        };
        let predicted = match predict_access(&self.model.regions, &self.model.channels, &m, Rights::READ(), offset, len) {
            Err(e) => Err(e),
            Ok(()) => match m.obj {
                Obj::Region(r) => Ok(copy_range(&self.model.regions[r].bytes, offset, len)),
                Obj::Channel(_) => Ok(Vec::new()),
            },
        };
        let result = self.mem.read(&self.k, &cap, offset, len);
        proof {
            if self.mirrored() {
                let regions = self.model@.regions;
                let channels = self.model@.channels;
                match m.obj {
                    Obj::Region(r) => {
                        assert(self.region_mirrored(r as int));
                    },
                    Obj::Channel(c) => {
                        assert(!self.mem.regions().contains_key(channels[c as int].id()));
                    },
                }
                assert(bytes_mirrored(self.mem.regions(), regions, cap, m));
                law_model_predicts_access(self.k, self.mem.regions(), regions, channels, cap, m, Rights::READ(), offset, len);
                assert(reads_agree(result, predicted));
            }
        }
        let (ok, dead) = match &result {
            Ok(_) => (true, false),
            Err(e) => (false, dead_mem(e)),
        };
        self.note_access(KIND_READ, stale, ok, dead);
        if !same_read(&result, &predicted) {
            return Err(Mismatch::Read { kernel: result, model: predicted });
        }
        proof {
            if old(self).mirrored() {
                Self::lemma_mirrored_same(*old(self), *self);
            }
        }
        proof {
            if old(self).traced() {
                Self::lemma_traced_same(*old(self), *self);
            }
        }
        Ok(())
    }

    fn exec_write(
        &mut self,
        p: usize,
        pick: Pick,
        regions_only: bool,
        offset: usize,
        len: usize,
        byte: u8,
    ) -> (r: Result<(), Mismatch>)
        requires
            old(self).wf(),
            old(self).counters_below(u64::MAX as int),
            p < old(self).pids@.len(),
        ensures
            old(self).mirrored() && old(self).traced() && r is Ok ==> final(self).traced(),
            forall|b: int| #[trigger] old(self).bounded(b) ==> final(self).bounded(b + 1),
            stepped(*old(self), *final(self)),
            r == Err::<(), Mismatch>(Mismatch::Exhausted) ==> old(self).at_limit(),
            old(self).mirrored() ==> r is Ok && final(self).mirrored(),
    {
        let (cap, m, stale) = match self.pick_cap(p, pick, regions_only) {
            Err(e) => {
                return Err(e);
            },
            Ok(None) => {
                {
                proof {
                    if old(self).traced() {
                        Self::lemma_traced_same(*old(self), *self);
                    }
                }
                return Ok(());
            }
            },
            Ok(Some(x)) => x,
        };
        let predicted = predict_access(&self.model.regions, &self.model.channels, &m, Rights::WRITE(), offset, len);
        let mut data: Vec<u8> = Vec::new();
        let mut i: usize = 0;
        while i < len
            invariant
                i <= len,
                data@ == Seq::new(i as nat, |j: int| byte),
            decreases len - i,
        {
            data.push(byte);
            i = i + 1;
            proof {
                assert(data@ =~= Seq::new(i as nat, |j: int| byte));
            }
        }
        let ghost mem0 = self.mem.regions();
        let result = self.mem.write(&self.k, &cap, offset, data.as_slice());
        proof {
            if old(self).mirrored() {
                let regions = self.model@.regions;
                let channels = self.model@.channels;
                match m.obj {
                    Obj::Region(r) => {
                        assert(old(self).region_mirrored(r as int));
                    },
                    Obj::Channel(c) => {
                        assert(!old(self).mem.regions().contains_key(channels[c as int].id()));
                    },
                }
                assert(bytes_mirrored(mem0, regions, cap, m));
                law_model_predicts_access(self.k, mem0, regions, channels, cap, m, Rights::WRITE(), offset, len);
                assert(data@.len() == len);
                assert(result == predicted);
            }
        }
        let (ok, dead) = match &result {
            Ok(_) => (true, false),
            Err(e) => (false, dead_mem(e)),
        };
        self.note_access(KIND_WRITE, stale, ok, dead);
        if !same_mem(&result, &predicted) {
            return Err(Mismatch::Write { kernel: result, model: predicted });
        }
        match (&result, &predicted) {
            (Ok(()), Ok(())) => match m.obj {
                Obj::Region(r) => {
                    self.write_model(r, offset, len, byte);
                    proof {
                        if old(self).mirrored() {
                            let regions = old(self).model@.regions;
                            assert(regions[r as int].alive);
                            assert(old(self).region_mirrored(r as int));
                            assert(cap.object() == regions[r as int].object);
                            Self::lemma_mirrored_bytes(
                                *old(self),
                                *self,
                                r as int,
                                crate::memory::written(regions[r as int].bytes@, offset as int, Seq::new(len as nat, |j: int| byte)),
                            );
                        }
                    }
                },
                Obj::Channel(_) => {},
            },
            _ => {
                proof {
                    if old(self).mirrored() {
                        Self::lemma_mirrored_same(*old(self), *self);
                    }
                }
            },
        }
        proof {
            if old(self).traced() {
                Self::lemma_traced_same(*old(self), *self);
            }
        }
        Ok(())
    }

    fn exec_revoke(&mut self, p: usize, pick: Pick) -> (r: Result<(), Mismatch>)
        requires
            old(self).wf(),
            old(self).counters_below(u64::MAX as int),
            p < old(self).pids@.len(),
        ensures
            old(self).mirrored() && old(self).traced() && r is Ok ==> final(self).traced(),
            forall|b: int| #[trigger] old(self).bounded(b) ==> final(self).bounded(b + 1),
            stepped(*old(self), *final(self)),
            r == Err::<(), Mismatch>(Mismatch::Exhausted) ==> old(self).at_limit(),
            old(self).mirrored() ==> (r is Ok && final(self).mirrored()) || r == Err::<(), Mismatch>(Mismatch::Exhausted),
    {
        let (cap, m, stale) = match self.pick_cap(p, pick, true) {
            Err(e) => {
                return Err(e);
            },
            Ok(None) => {
                {
                proof {
                    if old(self).traced() {
                        Self::lemma_traced_same(*old(self), *self);
                    }
                }
                return Ok(());
            }
            },
            Ok(Some(x)) => x,
        };
        let r = match m.obj {
            Obj::Region(r) => r,
            Obj::Channel(c) => c,
        };
        match self.k.epoch_of(cap.object()) {
            Some(e) => {
                if e == u64::MAX {
                    return Err(Mismatch::Exhausted);
                }
            },
            None => {},
        }
        if self.model.regions[r].epoch == u64::MAX {
            return Err(Mismatch::Exhausted);
        }
        let predicted = predict_check(&self.model.regions, &self.model.channels, &m, Rights::DESTROY());
        proof {
            if old(self).mirrored() {
                law_model_predicts_check(self.k, self.model@.regions, self.model@.channels, cap, m, Rights::DESTROY());
            }
        }
        let result = self.k.revoke(&cap);
        let (ok, dead) = match &result {
            Ok(_) => (true, false),
            Err(CapError::Revoked(_)) => (false, true),
            Err(CapError::UnknownObject(_)) => (false, true),
            Err(_) => (false, false),
        };
        self.note_access(KIND_REVOKE, stale, ok, dead);
        if !same_cap(&result, &predicted) {
            return Err(Mismatch::Revoke { kernel: result, model: predicted });
        }
        if ok {
            let ghost before = self.model.regions@;
            let mut reg = self.model.regions.remove(r);
            reg.epoch = reg.epoch + 1;
            self.model.regions.insert(r, reg);
            proof {
                assert(self.model.regions@ =~= before.update(r as int, reg));
                assert(self.model@.tables == old(self).model@.tables);
                Self::lemma_known_grow(old(self).model.regions@, old(self).model.channels@, self.model.regions@);
                if old(self).mirrored() {
                    assert(old(self).region_mirrored(r as int));
                    Self::lemma_mirrored_region(*old(self), *self, r as int);
                }
            }
        } else {
            proof {
                if old(self).mirrored() {
                    Self::lemma_mirrored_same(*old(self), *self);
                }
            }
        }
        proof {
            if old(self).traced() {
                Self::lemma_traced_same(*old(self), *self);
            }
        }
        Ok(())
    }

    fn exec_destroy(&mut self, p: usize, pick: Pick) -> (r: Result<(), Mismatch>)
        requires
            old(self).wf(),
            old(self).counters_below(u64::MAX as int),
            p < old(self).pids@.len(),
        ensures
            old(self).mirrored() && old(self).traced() && r is Ok ==> final(self).traced(),
            forall|b: int| #[trigger] old(self).bounded(b) ==> final(self).bounded(b + 1),
            stepped(*old(self), *final(self)),
            r == Err::<(), Mismatch>(Mismatch::Exhausted) ==> old(self).at_limit(),
            old(self).mirrored() ==> r is Ok && final(self).mirrored(),
    {
        let (cap, m, stale) = match self.pick_cap(p, pick, true) {
            Err(e) => {
                return Err(e);
            },
            Ok(None) => {
                {
                proof {
                    if old(self).traced() {
                        Self::lemma_traced_same(*old(self), *self);
                    }
                }
                return Ok(());
            }
            },
            Ok(Some(x)) => x,
        };
        let r = match m.obj {
            Obj::Region(r) => r,
            Obj::Channel(c) => c,
        };
        let predicted = match predict_check(&self.model.regions, &self.model.channels, &m, Rights::DESTROY()) {
            Ok(()) => Ok(()),
            Err(e) => Err(MemoryError::Capability(e)),
        };
        proof {
            if old(self).mirrored() {
                assert(old(self).region_mirrored(r as int));
                assert(bytes_mirrored(self.mem.regions(), self.model@.regions, cap, m));
                law_model_predicts_destroy(self.k, self.mem.regions(), self.model@.regions, self.model@.channels, cap, m);
            }
        }
        let result = self.mem.destroy_region(&mut self.k, &cap);
        let (ok, dead) = match &result {
            Ok(_) => (true, false),
            Err(e) => (false, dead_mem(e)),
        };
        self.note_access(KIND_DESTROY, stale, ok, dead);
        if !same_mem(&result, &predicted) {
            return Err(Mismatch::Destroy { kernel: result, model: predicted });
        }
        if ok {
            let ghost before = self.model.regions@;
            let mut reg = self.model.regions.remove(r);
            reg.alive = false;
            self.model.regions.insert(r, reg);
            proof {
                assert(self.model.regions@ =~= before.update(r as int, reg));
                assert(self.model@.tables == old(self).model@.tables);
                Self::lemma_known_grow(old(self).model.regions@, old(self).model.channels@, self.model.regions@);
                if old(self).mirrored() {
                    assert(old(self).region_mirrored(r as int));
                    Self::lemma_mirrored_region(*old(self), *self, r as int);
                }
            }
        } else {
            proof {
                if old(self).mirrored() {
                    Self::lemma_mirrored_same(*old(self), *self);
                }
            }
        }
        proof {
            if old(self).traced() {
                Self::lemma_traced_same(*old(self), *self);
            }
        }
        Ok(())
    }
}


impl World {
    proof fn lemma_counters_step(before: World, after: World, b: int)
        requires
            counted(before, after),
            before.counters_below(b),
        ensures
            after.counters_below(b + 1),
    {
        assert forall|i: int| 0 <= i < after.tallies@.len() implies (#[trigger] after.tallies@[i]).0 < b + 1 && after.tallies@[i].1 < b + 1 by {
            assert(before.tallies@[i].0 < b && before.tallies@[i].1 < b);
        }
    }

    proof fn lemma_counters_mono(&self, a: int, b: int)
        requires
            self.counters_below(a),
            a <= b,
        ensures
            self.counters_below(b),
    {
    }

    /// Runs one operation against the kernel and the model, and checks the
    /// kernel's answer against the model's prediction: `Err` names the
    /// disagreement. An operation with nothing to act on changes nothing.
    /// On a world the model mirrors, every operation succeeds and leaves the
    /// world mirrored, its events stamped as the clocks step, unless a
    /// counter has reached its limit; and no counter grows by more than one
    /// step's worth.
    pub fn execute(&mut self, op: &Op) -> (r: Result<(), Mismatch>)
        requires
            old(self).wf(),
            old(self).counters_below(u64::MAX as int),
            op_fits(op@, old(self).processes()),
        ensures
            final(self).wf(),
            counted(*old(self), *final(self)),
            r == Err::<(), Mismatch>(Mismatch::Exhausted) ==> old(self).at_limit(),
            forall|b: int| #[trigger] old(self).bounded(b) ==> final(self).bounded(b + 1),
            old(self).mirrored() && old(self).traced() && r is Ok ==> final(self).traced(),
            old(self).mirrored() ==> (r is Ok && final(self).mirrored())
                || r == Err::<(), Mismatch>(Mismatch::Exhausted),
            final(self).log_hash() == fnv_words(
                old(self).log_hash(),
                seq![
                    op_kind(op@),
                    op_process(op@) as u64,
                    final(self).tally_count(op_kind(op@) as int).0,
                    final(self).tally_count(op_kind(op@) as int).1,
                    final(self).stale_refusals(),
                    final(self).events() as u64,
                ],
            ),
    {
        let r = match op {
            Op::NewRegion { p, size } => self.exec_new_region(*p, *size),
            Op::Local { p } => self.exec_local(*p),
            Op::Spawn { parent, grants } => self.exec_spawn(*parent, grants),
            Op::Send { p, channel, grants } => self.exec_send(*p, *channel, grants),
            Op::Receive { p, channel } => self.exec_receive(*p, *channel),
            Op::Read { p, pick, regions_only, offset, len } => self.exec_read(*p, *pick, *regions_only, *offset, *len),
            Op::Write { p, pick, regions_only, offset, len, byte } => self.exec_write(
                *p,
                *pick,
                *regions_only,
                *offset,
                *len,
                *byte,
            ),
            Op::Revoke { p, pick } => self.exec_revoke(*p, *pick),
            Op::Destroy { p, pick } => self.exec_destroy(*p, *pick),
        };
        let (kind, p): (u64, usize) = match op {
            Op::NewRegion { p, .. } => (2, *p),
            Op::Local { p } => (1, *p),
            Op::Spawn { parent, .. } => (7, *parent),
            Op::Send { p, .. } => (6, *p),
            Op::Receive { p, .. } => (4, *p),
            Op::Read { p, .. } => (3, *p),
            Op::Write { p, .. } => (8, *p),
            Op::Revoke { p, .. } => (5, *p),
            Op::Destroy { p, .. } => (0, *p),
        };
        proof {
            assert(kind == op_kind(op@) && p == op_process(op@));
        }
        let (ok, rejected) = self.tallies[kind as usize];
        let ghost before_log = *self;
        let ghost h0 = self.log;
        self.log_word(kind);
        self.log_word(p as u64);
        self.log_word(ok);
        self.log_word(rejected);
        self.log_word(self.stale_refused);
        self.log_word(self.stamps.len() as u64);
        proof {
            if before_log.mirrored() {
                Self::lemma_mirrored_same(before_log, *self);
            }
            if before_log.traced() {
                Self::lemma_traced_same(before_log, *self);
            }
            let ws = seq![kind, p as u64, ok, rejected, self.stale_refused, self.stamps@.len() as u64];
            reveal_with_fuel(fnv_words, 7);
            assert(ws.drop_first() =~= seq![p as u64, ok, rejected, self.stale_refused, self.stamps@.len() as u64]);
            assert(ws.drop_first().drop_first() =~= seq![ok, rejected, self.stale_refused, self.stamps@.len() as u64]);
            assert(ws.drop_first().drop_first().drop_first() =~= seq![rejected, self.stale_refused, self.stamps@.len() as u64]);
            assert(ws.drop_first().drop_first().drop_first().drop_first() =~= seq![self.stale_refused, self.stamps@.len() as u64]);
            assert(ws.drop_first().drop_first().drop_first().drop_first().drop_first() =~= seq![self.stamps@.len() as u64]);
            assert(ws.drop_first().drop_first().drop_first().drop_first().drop_first().drop_first() =~= Seq::<u64>::empty());
            assert(self.log == fnv_words(h0, ws));
        }
        r
    }

    /// Any capability the model says can currently read region `r`.
    fn auditor(&self, r: usize) -> (c: Option<Capability>)
        requires
            self.wf(),
        ensures
            c == auditor_upto(self.stash@, self.model@.regions, self.model@.channels, r as int, self.stash@.len()),
    {
        let mut i: usize = 0;
        while i < self.stash.len()
            invariant
                i <= self.stash@.len(),
                self.wf(),
                auditor_upto(self.stash@, self.model@.regions, self.model@.channels, r as int, i as nat) is None,
            decreases self.stash@.len() - i,
        {
            let (cap, m) = self.stash[i];
            let here = match m.obj {
                Obj::Region(x) => x == r,
                Obj::Channel(_) => false,
            };
            if here {
                match predict_check(&self.model.regions, &self.model.channels, &m, Rights::READ()) {
                    Ok(()) => {
                        proof {
                            Self::lemma_auditor_found(self.stash@, self.model@.regions, self.model@.channels, r as int, (i + 1) as nat, self.stash@.len());
                        }
                        return Some(cap);
                    },
                    Err(_) => {},
                }
            }
            i = i + 1;
        }
        None
    }

    proof fn lemma_auditor_found(
        stash: Seq<(Capability, CapModel)>,
        regions: Seq<RegionModel>,
        channels: Seq<ObjectId>,
        r: int,
        n: nat,
        m: nat,
    )
        requires
            n <= m,
            auditor_upto(stash, regions, channels, r, n) is Some,
        ensures
            auditor_upto(stash, regions, channels, r, m) == auditor_upto(stash, regions, channels, r, n),
        decreases m - n,
    {
        if n < m {
            Self::lemma_auditor_found(stash, regions, channels, r, n, (m - 1) as nat);
        }
    }

    /// Full-state audit against the model: every process's table matches
    /// its mirror handle for handle, every capability ever seen passes or
    /// fails `check` as predicted, the region count matches, and every
    /// region the model can audit holds the model's bytes.
    pub fn sweep(&self) -> (r: Result<(), Mismatch>)
        requires
            self.wf(),
        ensures
            r is Ok <==> self.audited(),
            r matches Err(m) ==> m is RegionBytes || !self.audited_but_bytes(),
    {
        proof {
            self.sched.lemma_wf();
        }
        let mut p: usize = 0;
        while p < self.pids.len()
            invariant
                p <= self.pids@.len(),
                self.wf(),
                forall|q: int| 0 <= q < p ==> #[trigger] self.process_audited(q),
            decreases self.pids@.len() - p,
        {
            let proc = match self.sched.process(self.pids[p]) {
                Some(pr) => pr,
                None => {
                    proof {
                        assert(!self.process_audited(p as int));
                    }
                    return Err(Mismatch::MissingProcess { process: p });
                },
            };
            proof {
                self.sched.lemma_wf();
            }
            let found = proc.handles();
            let t = &self.model.tables[p];
            let mut same = found.len() == t.len();
            let mut i: usize = 0;
            while same && i < t.len()
                invariant
                    i <= t.len(),
                    same ==> found@.len() == t@.len(),
                    same ==> forall|j: int| 0 <= j < i ==> found@[j] == (#[trigger] t@[j]).0,
                    !same ==> found@.len() != t@.len() || exists|j: int| 0 <= j < i && found@[j] != (#[trigger] t@[j]).0,
                decreases t.len() - i,
            {
                if found[i] != t[i].0 {
                    same = false;
                }
                i = i + 1;
            }
            if !same {
                let mut hs: Vec<Handle> = Vec::new();
                let mut j: usize = 0;
                while j < t.len()
                    invariant
                        j <= t.len(),
                    decreases t.len() - j,
                {
                    hs.push(t[j].0);
                    j = j + 1;
                }
                proof {
                    assert(self.model@.tables[p as int] == t@);
                    if self.process_audited(p as int) {
                        assert(self.sched.lookup(self.pids@[p as int]) == Some(*proc));
                        assert forall|k: int| 0 <= k < found@.len() implies table_has(t@, #[trigger] found@[k]) by {
                            assert(proc.table().contains_key(found@[k].0));
                            assert(self.sched.lookup(self.pids@[p as int])->Some_0.table().contains_key(found@[k].0));
                            assert(Handle(found@[k].0) == found@[k]);
                            assert(table_has(t@, Handle(found@[k].0)));
                        }
                        assert forall|h: Handle| table_has(t@, h) implies exists|k: int| 0 <= k < found@.len() && #[trigger] found@[k] == h by {
                            assert(Handle(h.0) == h);
                            assert(proc.table().contains_key(h.0));
                            let k = choose|k: int| 0 <= k < found@.len() && (#[trigger] found@[k]).0 == h.0;
                            assert(found@[k] == h);
                        }
                        lemma_same_handle_count(found@, t@);
                        assert(false);
                    }
                }
                return Err(Mismatch::Table { process: p, kernel: found, model: hs });
            }
            assert(self.model@.tables[p as int] == t@);
            proof {
                assert forall|h: u32| #[trigger] proc.table().contains_key(h) <==> table_has(t@, Handle(h)) by {
                    if proc.table().contains_key(h) {
                        let k = choose|k: int| 0 <= k < found@.len() && (#[trigger] found@[k]).0 == h;
                        assert(found@[k] == t@[k].0);
                    }
                    if table_has(t@, Handle(h)) {
                        let k = choose|k: int| 0 <= k < t@.len() && (#[trigger] t@[k]).0 == Handle(h);
                        assert(found@[k] == t@[k].0);
                        assert(proc.table().contains_key(found@[k].0));
                    }
                }
            }
            let mut i: usize = 0;
            while i < t.len()
                invariant
                    i <= t.len(),
                    self.wf(),
                    p < self.pids@.len(),
                    self.model@.tables[p as int] == t@,
                    self.sched.lookup(self.pids@[p as int]) == Some(*proc),
                    forall|j: int|
                        0 <= j < i ==> {
                            let cap = proc.table()[(#[trigger] t@[j]).0.0];
                            &&& cap.object() == model_object(self.model@.regions, self.model@.channels, t@[j].1.obj)
                            &&& cap.rights() == t@[j].1.rights
                        },
                decreases t.len() - i,
            {
                let (h, m) = t[i];
                proof {
                    if self.process_audited(p as int) {
                        assert(self.sched.lookup(self.pids@[p as int]) == Some(*proc));
                        assert(table_has(t@, t@[i as int].0));
                        assert(Handle(h.0) == h);
                        assert(proc.table().contains_key(h.0));
                    }
                }
                match proc.capability(h) {
                    None => {
                        return Err(Mismatch::Entry { process: p, handle: h });
                    },
                    Some(cap) => {
                        assert(obj_known(self.model@.regions, self.model@.channels, self.model@.tables[p as int][i as int].1.obj));
                        let object = self.object_id(m.obj);
                        if !(cap.object() == object && cap.rights() == m.rights) {
                            proof {
                                if self.process_audited(p as int) {
                                    assert(self.sched.lookup(self.pids@[p as int]) == Some(*proc));
                                    assert(t@[i as int].0 == h);
                                }
                            }
                            return Err(Mismatch::Entry { process: p, handle: h });
                        }
                    },
                }
                i = i + 1;
            }
            proof {
                assert(self.sched.lookup(self.pids@[p as int]) == Some(*proc));
                assert(self.process_audited(p as int));
            }
            p = p + 1;
        }
        let mut i: usize = 0;
        while i < self.stash.len()
            invariant
                i <= self.stash@.len(),
                self.wf(),
                forall|q: int| 0 <= q < self.pids@.len() ==> #[trigger] self.process_audited(q),
                forall|j: int|
                    0 <= j < i ==> self.k.check_result((#[trigger] self.stash@[j]).0, Rights::NONE()) == predicted_check(
                        self.model@.regions,
                        self.model@.channels,
                        self.stash@[j].1,
                        Rights::NONE(),
                    ),
            decreases self.stash@.len() - i,
        {
            let (cap, m) = self.stash[i];
            let found = self.k.check(&cap, Rights::NONE());
            let predicted = predict_check(&self.model.regions, &self.model.channels, &m, Rights::NONE());
            if !same_cap(&found, &predicted) {
                proof {
                    if self.audited() {
                        assert(self.stash@[i as int].0 == cap);
                    }
                }
                return Err(Mismatch::Liveness { cap, kernel: found, model: predicted });
            }
            i = i + 1;
        }
        let mut alive: usize = 0;
        let mut r: usize = 0;
        while r < self.model.regions.len()
            invariant
                r <= self.model.regions@.len(),
                alive <= r,
                alive == alive_upto(self.model.regions@, r as nat),
            decreases self.model.regions@.len() - r,
        {
            if self.model.regions[r].alive {
                alive = alive + 1;
            }
            r = r + 1;
        }
        let count = self.mem.region_count();
        if count != alive {
            return Err(Mismatch::RegionCount { kernel: count, model: alive });
        }
        let mut r: usize = 0;
        while r < self.model.regions.len()
            invariant
                r <= self.model.regions@.len(),
                self.wf(),
                forall|q: int| 0 <= q < self.pids@.len() ==> #[trigger] self.process_audited(q),
                forall|j: int|
                    0 <= j < self.stash@.len() ==> self.k.check_result((#[trigger] self.stash@[j]).0, Rights::NONE())
                        == predicted_check(self.model@.regions, self.model@.channels, self.stash@[j].1, Rights::NONE()),
                self.mem.regions().len() == alive_upto(self.model@.regions, self.model@.regions.len()),
                forall|rr: int|
                    0 <= rr < r ==> (#[trigger] auditor_upto(
                        self.stash@,
                        self.model@.regions,
                        self.model@.channels,
                        rr,
                        self.stash@.len(),
                    ) matches Some(cap) ==> self.region_audited(rr, cap)),
            decreases self.model.regions@.len() - r,
        {
            match self.auditor(r) {
                None => {},
                Some(cap) => {
                    let found = match self.mem.size(&self.k, &cap) {
                        Err(e) => Err(e),
                        Ok(n) => self.mem.read(&self.k, &cap, 0, n),
                    };
                    let bytes = &self.model.regions[r].bytes;
                    let agree = match &found {
                        Ok(v) => same_bytes(v, bytes),
                        Err(_) => false,
                    };
                    if !agree {
                        proof {
                            if self.audited() {
                                assert(auditor_upto(self.stash@, self.model@.regions, self.model@.channels, r as int, self.stash@.len()) == Some(cap));
                                assert(self.region_audited(r as int, cap));
                                let id = cap.object().id();
                                assert(self.mem.regions()[id].subrange(0, self.mem.regions()[id].len() as int) =~= self.mem.regions()[id]);
                            }
                        }
                        return Err(Mismatch::RegionBytes { region: r, kernel: found, model: bytes.clone() });
                    }
                    proof {
                        let id = cap.object().id();
                        assert(self.mem.regions()[id].subrange(0, self.mem.regions()[id].len() as int) =~= self.mem.regions()[id]);
                        assert(self.region_audited(r as int, cap));
                    }
                },
            }
            r = r + 1;
        }
        Ok(())
    }

    /// Corrupts one byte of the model in the first region the sweep can
    /// audit, if there is one: the harness's self-test. On a mirrored world,
    /// a corruption makes the next audit fail.
    fn corrupt_model(&mut self) -> (done: bool)
        requires
            old(self).wf(),
        ensures
            final(self).wf(),
            final(self).processes() == old(self).processes(),
            final(self).tallies@ == old(self).tallies@,
            final(self).stale_refused == old(self).stale_refused,
            !done ==> *final(self) == *old(self),
            done && old(self).mirrored() ==> !final(self).audited() && final(self).audited_but_bytes(),
    {
        let mut r: usize = 0;
        while r < self.model.regions.len()
            invariant
                r <= self.model.regions@.len(),
                self.wf(),
                *self == *old(self),
            decreases self.model.regions@.len() - r,
        {
            if self.model.regions[r].bytes.len() > 0 {
                match self.auditor(r) {
                    Some(cap) => {
                        let b = self.model.regions[r].bytes[0];
                        let ghost before = *self;
                        self.write_model(r, 0, 1, b ^ 0xFF);
                        proof {
                            if before.mirrored() {
                                before.law_mirrored_passes_audit();
                                let ra = before.model@.regions;
                                let rb = self.model@.regions;
                                assert(ra[r as int].bytes@ == before.model.regions@[r as int].bytes@);
                                lemma_auditor_bytes(before.stash@, ra, rb, before.model@.channels, r as int, before.stash@.len());
                                assert(before.region_audited(r as int, cap));
                                assert((b ^ 0xFFu8) != b) by (bit_vector);
                                assert(rb[r as int].bytes@[0] == b ^ 0xFFu8);
                                assert(self.mem.regions()[cap.object().id()][0] == b);
                                assert(!self.region_audited(r as int, cap));
                                assert forall|x: int| 0 <= x < ra.len() implies (#[trigger] rb[x]).object == ra[x].object && rb[x].alive
                                    == ra[x].alive && rb[x].epoch == ra[x].epoch by {
                                }
                                lemma_alive_upto_bytes(ra, rb, ra.len());
                                assert forall|q: int| 0 <= q < self.pids@.len() implies #[trigger] self.process_audited(q) by {
                                    assert(before.process_audited(q));
                                    let t = self.model@.tables[q];
                                    assert forall|i: int| 0 <= i < t.len() implies ({
                                        let c = self.sched.lookup(self.pids@[q])->Some_0.table()[(#[trigger] t[i]).0.0];
                                        &&& c.object() == model_object(rb, self.model@.channels, t[i].1.obj)
                                        &&& c.rights() == t[i].1.rights
                                    }) by {
                                        assert(obj_known(ra, self.model@.channels, t[i].1.obj));
                                    }
                                }
                                assert forall|i: int| 0 <= i < self.stash@.len() implies self.k.check_result((#[trigger] self.stash@[i]).0, Rights::NONE())
                                    == predicted_check(rb, self.model@.channels, self.stash@[i].1, Rights::NONE()) by {
                                    assert(obj_known(ra, self.model@.channels, self.stash@[i].1.obj));
                                }
                                assert(self.audited_but_bytes());
                            }
                        }
                        return true;
                    },
                    None => {},
                }
            }
            r = r + 1;
        }
        false
    }

    /// Every recorded event against the ground-truth causal graph: an event
    /// happened before another exactly when a chain of program order,
    /// spawns and messages leads from it to the other, and then its Lamport
    /// time is smaller.
    fn check_causality(&self) -> (r: Result<(), Mismatch>)
        requires
            self.wf(),
        ensures
            self.traced() ==> r is Ok,
    {
        let ghost tr = self.traced();
        let ghost ev = self.trace@;
        let n = self.stamps.len();
        let mut reach: Vec<Vec<bool>> = Vec::new();
        let mut i: usize = 0;
        while i < n
            invariant
                i <= n,
                n == self.stamps@.len(),
                self.wf(),
                reach@.len() == i,
                forall|a: int| 0 <= a < i ==> (#[trigger] reach@[a])@.len() == n,
                tr == self.traced(),
                ev == self.trace@,
                tr ==> forall|x: int, t: int| 0 <= x < i && 0 <= t < n ==> (#[trigger] reach@[x]@[t]) == causally_precedes(ev, t, x),
            decreases n - i,
        {
            let mut row: Vec<bool> = Vec::new();
            let mut t: usize = 0;
            while t < n
                invariant
                    t <= n,
                    row@.len() == t,
                    forall|u: int| 0 <= u < t ==> !(#[trigger] row@[u]),
                decreases n - t,
            {
                row.push(false);
                t = t + 1;
            }
            let preds = &self.preds[i];
            let mut k: usize = 0;
            while k < preds.len()
                invariant
                    k <= preds@.len(),
                    i < n,
                    n == self.stamps@.len(),
                    self.wf(),
                    *preds == self.preds@[i as int],
                    reach@.len() == i,
                    forall|a: int| 0 <= a < i ==> (#[trigger] reach@[a])@.len() == n,
                    row@.len() == n,
                    forall|u: int| 0 <= u < n ==> (#[trigger] row@[u]) == reached_by(reach@, preds@, k as int, u),
                decreases preds@.len() - k,
            {
                let q = preds[k];
                assert(self.preds@[i as int]@[k as int] < i);
                row.set(q, true);
                let mut t: usize = 0;
                while t < n
                    invariant
                        t <= n,
                        q < i,
                        k < preds@.len(),
                        q == preds@[k as int],
                        reach@.len() == i,
                        forall|a: int| 0 <= a < i ==> (#[trigger] reach@[a])@.len() == n,
                        row@.len() == n,
                        forall|u: int| 0 <= u < n ==> (#[trigger] row@[u]) == (reached_by(reach@, preds@, k as int, u) || u == q || (u
                            < t && reach@[q as int]@[u])),
                    decreases n - t,
                {
                    if reach[q][t] {
                        row.set(t, true);
                    }
                    t = t + 1;
                }
                proof {
                    assert forall|u: int| 0 <= u < n implies (#[trigger] row@[u]) == reached_by(reach@, preds@, k + 1, u) by {
                        if reached_by(reach@, preds@, k as int, u) {
                            let k2 = choose|k2: int| 0 <= k2 < k && (u == preds@[k2] || reach@[preds@[k2] as int]@[u]);
                            assert(0 <= k2 < k + 1 && (u == preds@[k2] || reach@[preds@[k2] as int]@[u]));
                        }
                        if u == q || reach@[q as int]@[u] {
                            assert(0 <= k < k + 1 && (u == preds@[k as int] || reach@[preds@[k as int] as int]@[u]));
                        }
                        if reached_by(reach@, preds@, k + 1, u) {
                            let k2 = choose|k2: int| 0 <= k2 < k + 1 && (u == preds@[k2] || reach@[preds@[k2] as int]@[u]);
                            if k2 < k {
                                assert(reached_by(reach@, preds@, k as int, u));
                            }
                        }
                    }
                }
                k = k + 1;
            }
            proof {
                if tr {
                    let j = i as int;
                    crate::clock::lemma_last_before(ev, ev[j].0.0, j);
                    assert(receives_earlier(ev, j));
                    assert(preds@ == event_preds(ev, j));
                    assert forall|u: int| 0 <= u < n implies (#[trigger] row@[u]) == causally_precedes(ev, u, j) by {
                        let p = previous_at(ev, j);
                        let pr = event_preds(ev, j);
                        if reached_by(reach@, preds@, preds@.len() as int, u) {
                            let k2 = choose|k2: int| 0 <= k2 < preds@.len() && (u == preds@[k2] || reach@[preds@[k2] as int]@[u]);
                            assert(pr[k2] < j);
                            if reach@[preds@[k2] as int]@[u] {
                                assert(causally_precedes(ev, u, preds@[k2] as int));
                            }
                        }
                        if causally_precedes(ev, u, j) {
                            if 0 <= p < j && (p == u || causally_precedes(ev, u, p)) {
                                let kp = pr.len() - 1;
                                assert(pr[kp] == p as usize);
                                assert(reach@[p]@[u] == causally_precedes(ev, u, p));
                                assert(u == preds@[kp] || reach@[preds@[kp] as int]@[u]);
                            } else {
                                let src = ev[j].1->Some_0;
                                assert(pr[0] == src as usize);
                                assert(reach@[src]@[u] == causally_precedes(ev, u, src));
                                assert(u == preds@[0] || reach@[preds@[0] as int]@[u]);
                            }
                        }
                    }
                }
            }
            reach.push(row);
            proof {
                if tr {
                    assert forall|x: int, t: int| 0 <= x < i + 1 && 0 <= t < n implies (#[trigger] reach@[x]@[t]) == causally_precedes(ev, t, x) by {
                    }
                }
            }
            i = i + 1;
        }
        let mut a: usize = 0;
        while a < n
            invariant
                a <= n,
                n == self.stamps@.len(),
                reach@.len() == n,
                forall|x: int| 0 <= x < n ==> (#[trigger] reach@[x])@.len() == n,
                tr == self.traced(),
                ev == self.trace@,
                tr ==> forall|x: int, t: int| 0 <= x < n && 0 <= t < n ==> (#[trigger] reach@[x]@[t]) == causally_precedes(ev, t, x),
            decreases n - a,
        {
            let mut b: usize = 0;
            while b < n
                invariant
                    b <= n,
                    a < n,
                    n == self.stamps@.len(),
                    reach@.len() == n,
                    forall|x: int| 0 <= x < n ==> (#[trigger] reach@[x])@.len() == n,
                    tr == self.traced(),
                    ev == self.trace@,
                    tr ==> forall|x: int, t: int| 0 <= x < n && 0 <= t < n ==> (#[trigger] reach@[x]@[t]) == causally_precedes(ev, t, x),
                decreases n - b,
            {
                if a != b {
                    let truth = reach[b][a];
                    proof {
                        if tr {
                            crate::clock::law_vector_clocks_characterize_causality(ev, self.stamps@, a as int, b as int);
                        }
                    }
                    if self.stamps[a].happened_before(&self.stamps[b]) != truth {
                        return Err(Mismatch::Causality { earlier: a, later: b, truth });
                    }
                    if truth && !(self.stamps[a].lamport() < self.stamps[b].lamport()) {
                        return Err(Mismatch::Lamport { earlier: a, later: b });
                    }
                }
                b = b + 1;
            }
            a = a + 1;
        }
        Ok(())
    }

    /// The run's summary.
    fn summary(&self, seed: u64, steps: usize) -> (s: ChaosSummary)
        requires
            self.wf(),
        ensures
            s.seed == seed,
            s.steps == steps,
            s.log_hash == self.log_hash(),
            s.events == self.events(),
            s.stale_replays_refused == self.stale_refusals(),
    {
        let names: [&'static str; 9] = [
            "destroy",
            "local",
            "new_region",
            "read",
            "receive",
            "revoke",
            "send",
            "spawn",
            "write",
        ];
        let mut outcomes: Vec<(&'static str, (u64, u64))> = Vec::new();
        let mut i: usize = 0;
        while i < 9
            invariant
                i <= 9,
                self.wf(),
            decreases 9 - i,
        {
            let (ok, rejected) = self.tallies[i];
            if ok > 0 || rejected > 0 {
                outcomes.push((names[i], (ok, rejected)));
            }
            i = i + 1;
        }
        ChaosSummary {
            seed,
            steps,
            outcomes,
            events: self.stamps.len(),
            stale_replays_refused: self.stale_refused,
            log_hash: self.log,
        }
    }
}


impl World {
    /// A fresh world: one root process holding a full capability to each
    /// channel and to two regions of eight zero bytes, all mirrored, and
    /// passing its audit.
    pub fn new() -> (w: World)
        ensures
            w.wf(),
            w.audited(),
            w.mirrored(),
            w.processes() == 1,
            w.counters_below(1),
            initial_model(w.model_view()),
            w.bounded(0),
            w.traced(),
            w.events() == 0,
            w.log_hash() == 0xCBF2_9CE4_8422_2325u64,
    {
        let mut k = Kernel::new();
        let mut chans = ChannelRegistry::new();
        let c0 = chans.new_channel(&mut k);
        let c1 = chans.new_channel(&mut k);
        let c2 = chans.new_channel(&mut k);
        let mut mem = RegionRegistry::new();
        let r0 = mem.new_region(&mut k, 8);
        let r1 = mem.new_region(&mut k, 8);
        let mut initial: Vec<Capability> = Vec::new();
        initial.push(c0);
        initial.push(c1);
        initial.push(c2);
        initial.push(r0);
        initial.push(r1);
        let mut sched = Scheduler::new();
        let root = sched.spawn(initial);
        let mut pids: Vec<ProcessId> = Vec::new();
        pids.push(root);
        let mut channels: Vec<ObjectId> = Vec::new();
        channels.push(c0.object());
        channels.push(c1.object());
        channels.push(c2.object());
        let z0 = zeros(8);
        let z1 = zeros(8);
        let mut regions: Vec<RegionModel> = Vec::new();
        regions.push(RegionModel { object: r0.object(), alive: true, epoch: 0, bytes: z0 });
        regions.push(RegionModel { object: r1.object(), alive: true, epoch: 0, bytes: z1 });
        let m0 = CapModel { obj: Obj::Channel(0), rights: c0.rights(), epoch: 0 };
        let m1 = CapModel { obj: Obj::Channel(1), rights: c1.rights(), epoch: 0 };
        let m2 = CapModel { obj: Obj::Channel(2), rights: c2.rights(), epoch: 0 };
        let m3 = CapModel { obj: Obj::Region(0), rights: r0.rights(), epoch: 0 };
        let m4 = CapModel { obj: Obj::Region(1), rights: r1.rights(), epoch: 0 };
        let mut table: Vec<(Handle, CapModel)> = Vec::new();
        table.push((Handle(0), m0));
        table.push((Handle(1), m1));
        table.push((Handle(2), m2));
        table.push((Handle(3), m3));
        table.push((Handle(4), m4));
        let mut tables: Vec<Vec<(Handle, CapModel)>> = Vec::new();
        tables.push(table);
        let mut stash: Vec<(Capability, CapModel)> = Vec::new();
        stash.push((c0, m0));
        stash.push((c1, m1));
        stash.push((c2, m2));
        stash.push((r0, m3));
        stash.push((r1, m4));
        let mut in_flight: Vec<Vec<(usize, Vec<CapModel>)>> = Vec::new();
        in_flight.push(Vec::new());
        in_flight.push(Vec::new());
        in_flight.push(Vec::new());
        let mut last_event: Vec<Option<usize>> = Vec::new();
        last_event.push(None);
        let mut tallies: Vec<(u64, u64)> = Vec::new();
        let mut i: usize = 0;
        while i < 9
            invariant
                i <= 9,
                tallies@.len() == i,
                forall|j: int| 0 <= j < i ==> #[trigger] tallies@[j] == (0u64, 0u64),
            decreases 9 - i,
        {
            tallies.push((0, 0));
            i = i + 1;
        }
        let w = World {
            k,
            sched,
            chans,
            mem,
            model: ChaosModel { regions, channels, tables },
            pids,
            in_flight,
            stash,
            stamps: Vec::new(),
            trace: Ghost(Seq::empty()),
            preds: Vec::new(),
            last_event,
            tallies,
            stale_refused: 0,
            log: 0xCBF2_9CE4_8422_2325,
        };
        proof {
            let t = w.model@.tables[0];
            assert(t == table@);
            let ids = seq![c0.object().id(), c1.object().id(), c2.object().id(), r0.object().id(), r1.object().id()];
            assert(w.k.epochs().contains_key(ids[0]) && w.k.epochs()[ids[0]] == 0);
            assert(w.k.epochs().contains_key(ids[1]) && w.k.epochs()[ids[1]] == 0);
            assert(w.k.epochs().contains_key(ids[2]) && w.k.epochs()[ids[2]] == 0);
            assert(w.k.epochs().contains_key(ids[3]) && w.k.epochs()[ids[3]] == 0);
            assert(w.k.epochs().contains_key(ids[4]) && w.k.epochs()[ids[4]] == 0);
            w.sched.lemma_wf();
            let proc = w.sched.procs()[0];
            assert(w.sched.lookup(w.pids@[0]) == Some(proc));
            assert forall|h: u32| #[trigger] proc.table().contains_key(h) <==> table_has(t, Handle(h)) by {
                if h < 5 {
                    assert(t[h as int].0 == Handle(h));
                }
                if table_has(t, Handle(h)) {
                    let x = choose|x: int| 0 <= x < t.len() && (#[trigger] t[x]).0 == Handle(h);
                }
            }
            assert(w.process_audited(0));
            assert forall|i: int| 0 <= i < w.stash@.len() implies w.k.check_result((#[trigger] w.stash@[i]).0, Rights::NONE())
                == predicted_check(w.model@.regions, w.model@.channels, w.stash@[i].1, Rights::NONE()) by {
                assert(w.stash@[i].0.epoch() == 0);
                assert(w.stash@[i].0.object().id() == ids[i]);
            }
            assert(w.mem.regions() =~= Map::<u64, Seq<u8>>::empty().insert(ids[3], Seq::new(8, |i: int| 0u8)).insert(
                ids[4],
                Seq::new(8, |i: int| 0u8),
            ));
            assert(w.mem.regions().len() == 2);
            reveal_with_fuel(alive_upto, 3);
            reveal_with_fuel(auditor_upto, 6);
            assert(w.model@.regions[0].alive && w.model@.regions[0].epoch == 0);
            assert(Rights::READ().bits() == 1);
            assert(m3.rights.bits() == 27);
            assert(27u32 & 1u32 == 1u32) by (bit_vector);
            assert(m3.rights.spec_contains(Rights::READ()));
            assert(predicted_check(w.model@.regions, w.model@.channels, m3, Rights::READ()) is Ok);
            assert(auditor_upto(w.stash@, w.model@.regions, w.model@.channels, 0, 3) is None);
            assert(auditor_upto(w.stash@, w.model@.regions, w.model@.channels, 0, 4) == Some(r0));
            assert(auditor_upto(w.stash@, w.model@.regions, w.model@.channels, 0, 5) == Some(r0));
            assert(auditor_upto(w.stash@, w.model@.regions, w.model@.channels, 1, 5) == Some(r1));
            assert(w.model@.regions[0].bytes@ =~= Seq::new(8, |i: int| 0u8));
            assert(w.model@.regions[1].bytes@ =~= Seq::new(8, |i: int| 0u8));
            assert(Rights::NONE().bits() == 0);
            assert(27u32 & 0u32 == 0u32) by (bit_vector);
            assert(w.k.check_result(r0, Rights::NONE()) is Ok);
            assert(w.k.check_result(r0, Rights::READ()) is Ok);
            assert(w.region_audited(0, r0));
            assert(w.region_audited(1, r1));
            let regions = w.model@.regions;
            let channels = w.model@.channels;
            assert(w.k.next_id() == 5);
            assert forall|i: int| 0 <= i < 5 implies (#[trigger] w.stash@[i]).0.object().id() == i by {
            }
            assert forall|o: Obj| #[trigger] obj_known(regions, channels, o) ==> model_object(regions, channels, o).id() < w.k.next_id() by {
            }
            assert forall|x: Obj, y: Obj| obj_known(regions, channels, x) && obj_known(regions, channels, y) && x != y implies model_object(regions, channels, x) != model_object(regions, channels, y) by {
                let ix = match x { Obj::Channel(c) => c as int, Obj::Region(r) => 3 + r };
                let iy = match y { Obj::Channel(c) => c as int, Obj::Region(r) => 3 + r };
                assert(model_object(regions, channels, x).id() == ix);
                assert(model_object(regions, channels, y).id() == iy);
            }
            assert(objects_distinct(regions, channels));
            assert(Rights::NONE().bits() == 0);
            assert forall|i: int| 0 <= i < w.stash@.len() implies mirrors(w.k, regions, channels, (#[trigger] w.stash@[i]).0, w.stash@[i].1) by {
                assert(w.stash@[i].0.epoch() == 0);
                assert(w.stash@[i].0.object().id() == ids[i]);
            }
            assert forall|i: int| 0 <= i < t.len() implies mirrors(w.k, regions, channels, w.ktable(0)[(#[trigger] t[i]).0.0], t[i].1) by {
                assert(w.ktable(0)[t[i].0.0] == w.stash@[i].0);
                assert(t[i].1 == w.stash@[i].1);
                assert(mirrors(w.k, regions, channels, w.stash@[i].0, w.stash@[i].1));
            }
            assert forall|h: u32| #[trigger] w.ktable(0).contains_key(h) <==> table_has(t, Handle(h)) by {
                if h < 5 {
                    assert(t[h as int].0 == Handle(h));
                }
                if table_has(t, Handle(h)) {
                    let x = choose|x: int| 0 <= x < t.len() && (#[trigger] t[x]).0 == Handle(h);
                }
            }
            assert(w.process_mirrored(0));
            assert(w.region_mirrored(0));
            assert(w.region_mirrored(1));
            assert(w.region_epoch_mirrored(0));
            assert(w.region_epoch_mirrored(1));
            assert forall|c: int| 0 <= c < channels.len() implies #[trigger] w.channel_mirrored(c) by {
                assert(channels[c].id() == c);
                assert(w.chans.queues()[channels[c].id()].len() == 0);
            }
            assert(27u32 & 11u32 == 11u32) by (bit_vector);
            assert(c0.rights().bits() == 27);
            assert forall|c: usize| c < CHANNELS implies #[trigger] table_holds(t, Obj::Channel(c)) by {
                assert(t[c as int].1.obj == Obj::Channel(c));
            }
            assert forall|i: int| 0 <= i < t.len() && (#[trigger] t[i]).1.obj is Channel implies t[i].1.rights.spec_contains(Rights::from_bits(11)) by {
                assert(t[i].1.rights.bits() == 27);
            }
            assert(w.holds_channels(0));
            assert(r0.rights() == Rights::from_bits(27));
            assert(t =~= seq![
                (Handle(0), CapModel { obj: Obj::Channel(0), rights: Rights::from_bits(27), epoch: 0 }),
                (Handle(1), CapModel { obj: Obj::Channel(1), rights: Rights::from_bits(27), epoch: 0 }),
                (Handle(2), CapModel { obj: Obj::Channel(2), rights: Rights::from_bits(27), epoch: 0 }),
                (Handle(3), CapModel { obj: Obj::Region(0), rights: Rights::from_bits(27), epoch: 0 }),
                (Handle(4), CapModel { obj: Obj::Region(1), rights: Rights::from_bits(27), epoch: 0 }),
            ]);
            assert forall|c: int| 0 <= c < channels.len() implies !w.mem.regions().contains_key((#[trigger] channels[c]).id()) by {
                assert(channels[c].id() == c);
            }
            assert(w.mirrored());
        }
        w
    }
}

/// How many regions are alive does not depend on any region's bytes.
proof fn lemma_alive_upto_bytes(ra: Seq<RegionModel>, rb: Seq<RegionModel>, n: nat)
    requires
        n <= ra.len(),
        ra.len() == rb.len(),
        forall|x: int| 0 <= x < ra.len() ==> (#[trigger] rb[x]).alive == ra[x].alive,
    ensures
        alive_upto(rb, n) == alive_upto(ra, n),
    decreases n,
{
    if n > 0 {
        lemma_alive_upto_bytes(ra, rb, (n - 1) as nat);
        assert(rb[n - 1].alive == ra[n - 1].alive);
    }
}

/// Which capability the audit reads a region through does not depend on
/// any region's bytes.
proof fn lemma_auditor_bytes(
    stash: Seq<(Capability, CapModel)>,
    ra: Seq<RegionModel>,
    rb: Seq<RegionModel>,
    channels: Seq<ObjectId>,
    r: int,
    n: nat,
)
    requires
        n <= stash.len(),
        0 <= r < ra.len(),
        ra.len() == rb.len(),
        forall|x: int|
            0 <= x < ra.len() ==> (#[trigger] rb[x]).object == ra[x].object && rb[x].alive == ra[x].alive && rb[x].epoch
                == ra[x].epoch,
    ensures
        auditor_upto(stash, rb, channels, r, n) == auditor_upto(stash, ra, channels, r, n),
    decreases n,
{
    if n > 0 {
        lemma_auditor_bytes(stash, ra, rb, channels, r, (n - 1) as nat);
        let c = stash[n - 1].1;
        if c.obj == Obj::Region(r as usize) {
            assert(rb[r].object == ra[r].object);
            assert(predicted_check(rb, channels, c, Rights::READ()) == predicted_check(ra, channels, c, Rights::READ()));
        }
    }
}

/// Some of the first `k` predecessors is `u`, or is reached from `u`.
pub open spec fn reached_by(reach: Seq<Vec<bool>>, preds: Seq<usize>, k: int, u: int) -> bool {
    exists|k2: int| 0 <= k2 < k && (u == preds[k2] || reach[preds[k2] as int]@[u])
}

/// The events an event directly follows: the one whose message it
/// received, then the one before it at its process.
pub open spec fn event_preds(ev: Seq<(ProcessId, Option<int>)>, i: int) -> Seq<usize> {
    let from = match ev[i].1 {
        Some(s) => seq![s as usize],
        None => Seq::<usize>::empty(),
    };
    let p = previous_at(ev, i);
    if p >= 0 {
        from.push(p as usize)
    } else {
        from
    }
}

/// Recording one more event does not change which event came last before
/// an earlier point.
proof fn lemma_last_before_push(ev: Seq<(ProcessId, Option<int>)>, x: (ProcessId, Option<int>), key: u64, n: int)
    requires
        0 <= n <= ev.len(),
    ensures
        last_before(ev.push(x), key, n) == last_before(ev, key, n),
    decreases n,
{
    if n > 0 {
        assert(ev.push(x)[n - 1] == ev[n - 1]);
        lemma_last_before_push(ev, x, key, n - 1);
    }
}

/// Recording one more event changes nothing about the earlier ones.
proof fn lemma_trace_push(
    ev: Seq<(ProcessId, Option<int>)>,
    stamps: Seq<Stamp>,
    x: (ProcessId, Option<int>),
    s: Stamp,
)
    requires
        ev.len() == stamps.len(),
        stamped_execution(ev, stamps),
    ensures
        forall|j: int| 0 <= j < ev.len() ==> previous_at(ev.push(x), j) == previous_at(ev, j),
        forall|j: int| 0 <= j < ev.len() ==> #[trigger] event_preds(ev.push(x), j) == event_preds(ev, j),
        forall|j: int| 0 <= j < ev.len() ==> #[trigger] clock_stamped(ev.push(x), stamps.push(s), j),
        forall|j: int| 0 <= j < ev.len() ==> #[trigger] receives_earlier(ev.push(x), j),
{
    let e2 = ev.push(x);
    let s2 = stamps.push(s);
    assert forall|j: int|
        #![trigger event_preds(e2, j)]
        #![trigger clock_stamped(e2, s2, j)]
        #![trigger receives_earlier(e2, j)]
        #![trigger previous_at(e2, j)]
        0 <= j < ev.len() implies previous_at(e2, j) == previous_at(ev, j) && event_preds(e2, j) == event_preds(ev, j)
            && clock_stamped(e2, s2, j) && receives_earlier(e2, j) by {
        assert(e2[j] == ev[j]);
        lemma_last_before_push(ev, x, ev[j].0.0, j);
        crate::clock::lemma_last_before(ev, ev[j].0.0, j);
        assert(clock_stamped(ev, stamps, j));
        assert(receives_earlier(ev, j));
        let p = previous_at(ev, j);
        if p >= 0 {
            assert(s2[p] == stamps[p]);
        }
        if let Some(src) = ev[j].1 {
            assert(s2[src] == stamps[src]);
        }
        assert(s2[j] == stamps[j]);
        assert forall|key: u64| merged_count(e2, s2, j, key) == merged_count(ev, stamps, j, key) by {
        }
        assert(merged_time(e2, s2, j) == merged_time(ev, stamps, j));
    }
}

/// Some entry of `s` is handle `h`.
pub open spec fn lists_handle(s: Seq<Handle>, h: u32) -> bool {
    exists|i: int| 0 <= i < s.len() && (#[trigger] s[i]).0 == h
}

/// A strictly increasing run of handles holding exactly those below `n` is
/// `0, 1, ..., n - 1`.
proof fn lemma_handles_dense(s: Seq<Handle>, n: nat)
    requires
        n <= u32::MAX,
        forall|i: int, j: int| 0 <= i < j < s.len() ==> (#[trigger] s[i]).0 < (#[trigger] s[j]).0,
        forall|h: u32| h < n ==> #[trigger] lists_handle(s, h),
        forall|i: int| 0 <= i < s.len() ==> (#[trigger] s[i]).0 < n,
    ensures
        s.len() == n,
        forall|i: int| 0 <= i < s.len() ==> (#[trigger] s[i]).0 == i,
{
    lemma_handles_dense_prefix(s, n, s.len());
    if s.len() > 0 {
        assert(s[s.len() - 1].0 == s.len() - 1);
    }
    if n > 0 {
        let h = (n - 1) as u32;
        assert(lists_handle(s, h));
        let j = choose|j: int| 0 <= j < s.len() && (#[trigger] s[j]).0 == h;
        assert(s[j].0 == j);
    }
}

/// The first `k` handles of such a run are `0` to `k - 1`.
proof fn lemma_handles_dense_prefix(s: Seq<Handle>, n: nat, k: nat)
    requires
        n <= u32::MAX,
        k <= s.len(),
        forall|i: int, j: int| 0 <= i < j < s.len() ==> (#[trigger] s[i]).0 < (#[trigger] s[j]).0,
        forall|h: u32| h < n ==> #[trigger] lists_handle(s, h),
        forall|i: int| 0 <= i < s.len() ==> (#[trigger] s[i]).0 < n,
    ensures
        forall|i: int| 0 <= i < k ==> (#[trigger] s[i]).0 == i,
    decreases k,
{
    if k > 0 {
        lemma_handles_dense_prefix(s, n, (k - 1) as nat);
        let x = k - 1;
        if x > 0 {
            assert(s[x - 1].0 < s[x].0);
        }
        assert(s[x].0 >= x);
        let h = x as u32;
        assert(lists_handle(s, h));
        let j = choose|j: int| 0 <= j < s.len() && (#[trigger] s[j]).0 == h;
        if j < x {
            assert(s[j].0 == j);
        } else if j > x {
            assert(s[x].0 < s[j].0);
        }
    }
}

/// `n` zero bytes.
fn zeros(n: usize) -> (z: Vec<u8>)
    ensures
        z@ == Seq::new(n as nat, |i: int| 0u8),
{
    let mut z: Vec<u8> = Vec::new();
    let mut i: usize = 0;
    while i < n
        invariant
            i <= n,
            z@ == Seq::new(i as nat, |j: int| 0u8),
        decreases n - i,
    {
        z.push(0u8);
        i = i + 1;
        proof {
            assert(z@ =~= Seq::new(i as nat, |j: int| 0u8));
        }
    }
    z
}

/// Runs one chaos schedule: `steps` operations drawn from `SplitMix64(seed)`,
/// each checked against the model's prediction and followed by a full
/// audit, then every pair of recorded events checked against the causal
/// graph. A run of at most 2^28 steps without a fault succeeds; with a
/// fault, it fails only at or after the fault's step, on a region's bytes.
pub fn run_chaos(config: ChaosConfig) -> (r: Result<ChaosSummary, ChaosFailure>)
    ensures
        r matches Ok(s) ==> s.seed == config.seed && s.steps == config.steps,
        r matches Err(f) ==> f.seed == config.seed && f.steps == config.steps && f.step <= config.steps && (f.op is None
            <==> f.step == config.steps),
        r matches Err(f) ==> f.op is Some && ((config.fault matches Some(Fault::CorruptModelAt { step: at }) && f.step >= at
            && f.mismatch is RegionBytes) || (f.mismatch == Mismatch::Exhausted && config.steps > 0x1000_0000)),
        config.fault is None && config.steps <= 0x1000_0000 ==> r is Ok,
{
    let mut rng = SplitMix64::new(config.seed);
    let mut world = World::new();
    let mut fault_pending = config.fault;
    let mut step: usize = 0;
    while step < config.steps
        invariant
            step <= config.steps,
            world.wf(),
            world.counters_below(step + 1),
            world.mirrored(),
            world.traced(),
            world.bounded(step as int),
            fault_pending == config.fault,
        decreases config.steps - step,
    {
        let n = world.process_count();
        let op = generate(&mut rng, n);
        proof {
            world.lemma_counters_mono(step + 1, u64::MAX as int);
            if config.steps <= 0x1000_0000 {
                world.lemma_bounded_below_limit(step as int);
            }
        }
        let ghost before = world;
        match world.execute(&op) {
            Ok(()) => {},
            Err(m) => {
                return Err(ChaosFailure { seed: config.seed, steps: config.steps, step, op: Some(op), mismatch: m });
            },
        }
        proof {
            World::lemma_counters_step(before, world, step + 1);
        }
        match fault_pending {
            Some(Fault::CorruptModelAt { step: at }) => {
                if step >= at {
                    if world.corrupt_model() {
                        fault_pending = None;
                    }
                }
            },
            None => {},
        }
        proof {
            if fault_pending == config.fault {
                world.law_mirrored_passes_audit();
            }
        }
        match world.sweep() {
            Ok(()) => {},
            Err(m) => {
                return Err(ChaosFailure { seed: config.seed, steps: config.steps, step, op: Some(op), mismatch: m });
            },
        }
        step = step + 1;
    }
    match world.check_causality() {
        Ok(()) => {},
        Err(m) => {
            return Err(ChaosFailure { seed: config.seed, steps: config.steps, step: config.steps, op: None, mismatch: m });
        },
    }
    Ok(world.summary(config.seed, config.steps))
}


/// The ids of the alive regions among the first `n` of the model.
pub open spec fn alive_ids(regions: Seq<RegionModel>, n: nat) -> Set<u64>
    decreases n,
{
    if n == 0 {
        Set::empty()
    } else {
        let s = alive_ids(regions, (n - 1) as nat);
        if regions[n - 1].alive {
            s.insert(regions[n - 1].object.id())
        } else {
            s
        }
    }
}

proof fn lemma_alive_ids(regions: Seq<RegionModel>, n: nat)
    requires
        n <= regions.len(),
        forall|x: int, y: int|
            0 <= x < regions.len() && 0 <= y < regions.len() && x != y ==> (#[trigger] regions[x]).object.id()
                != (#[trigger] regions[y]).object.id(),
    ensures
        alive_ids(regions, n).finite(),
        alive_ids(regions, n).len() == alive_upto(regions, n),
        forall|id: u64|
            #[trigger] alive_ids(regions, n).contains(id) <==> exists|r: int|
                0 <= r < n && regions[r].alive && (#[trigger] regions[r].object).id() == id,
    decreases n,
{
    if n > 0 {
        lemma_alive_ids(regions, (n - 1) as nat);
        let s = alive_ids(regions, (n - 1) as nat);
        let last = regions[n - 1];
        if last.alive {
            if s.contains(last.object.id()) {
                let r = choose|r: int| 0 <= r < n - 1 && regions[r].alive && (#[trigger] regions[r].object).id() == last.object.id();
                assert(regions[r].object.id() != regions[n - 1].object.id());
            }
        }
        assert forall|id: u64| #[trigger] alive_ids(regions, n).contains(id) <==> exists|r: int|
            0 <= r < n && regions[r].alive && (#[trigger] regions[r].object).id() == id by {
            if alive_ids(regions, n).contains(id) {
                if s.contains(id) {
                    let r = choose|r: int| 0 <= r < n - 1 && regions[r].alive && (#[trigger] regions[r].object).id() == id;
                    assert(0 <= r < n);
                } else {
                    assert(regions[n - 1].object.id() == id);
                }
            }
            if exists|r: int| 0 <= r < n && regions[r].alive && (#[trigger] regions[r].object).id() == id {
                let r = choose|r: int| 0 <= r < n && regions[r].alive && (#[trigger] regions[r].object).id() == id;
                if r < n - 1 {
                    assert(s.contains(id));
                }
            }
        }
    }
}

/// The first capability of the stash that can audit region `r` is one the
/// model says can read it.
proof fn lemma_auditor_found_in_stash(
    stash: Seq<(Capability, CapModel)>,
    regions: Seq<RegionModel>,
    channels: Seq<ObjectId>,
    r: int,
    n: nat,
)
    requires
        n <= stash.len(),
    ensures
        auditor_upto(stash, regions, channels, r, n) matches Some(c) ==> exists|i: int|
            0 <= i < n && (#[trigger] stash[i]).0 == c && stash[i].1.obj == Obj::Region(r as usize) && predicted_check(
                regions,
                channels,
                stash[i].1,
                Rights::READ(),
            ) is Ok,
    decreases n,
{
    if n > 0 {
        lemma_auditor_found_in_stash(stash, regions, channels, r, (n - 1) as nat);
    }
}

impl World {
    /// A world that mirrors the kernel passes its audit: `sweep` answers
    /// `Ok` on it.
    pub proof fn law_mirrored_passes_audit(&self)
        requires
            self.mirrored(),
        ensures
            self.audited(),
    {
        let regions = self.model@.regions;
        let channels = self.model@.channels;
        assert(self.model.regions.len() == regions.len());
        assert forall|p: int| 0 <= p < self.pids@.len() implies #[trigger] self.process_audited(p) by {
            assert(self.process_mirrored(p));
            let t = self.model@.tables[p];
            assert(self.ktable(p) == self.sched.lookup(self.pids@[p])->Some_0.table());
            assert forall|h: u32| #[trigger] self.sched.lookup(self.pids@[p])->Some_0.table().contains_key(h) <==> table_has(t, Handle(h)) by {
                assert(self.ktable(p).contains_key(h) <==> table_has(t, Handle(h)));
            }
            assert forall|i: int| 0 <= i < t.len() implies ({
                let cap = self.sched.lookup(self.pids@[p])->Some_0.table()[(#[trigger] t[i]).0.0];
                &&& cap.object() == model_object(regions, channels, t[i].1.obj)
                &&& cap.rights() == t[i].1.rights
            }) by {
                assert(mirrors(self.k, regions, channels, self.ktable(p)[t[i].0.0], t[i].1));
            }
        }
        assert forall|i: int| 0 <= i < self.stash@.len() implies self.k.check_result((#[trigger] self.stash@[i]).0, Rights::NONE())
            == predicted_check(regions, channels, self.stash@[i].1, Rights::NONE()) by {
            law_model_predicts_check(self.k, regions, channels, self.stash@[i].0, self.stash@[i].1, Rights::NONE());
        }
        assert forall|x: int, y: int|
            0 <= x < regions.len() && 0 <= y < regions.len() && x != y implies (#[trigger] regions[x]).object.id()
                != (#[trigger] regions[y]).object.id() by {
            assert(obj_known(regions, channels, Obj::Region(x as usize)));
            assert(obj_known(regions, channels, Obj::Region(y as usize)));
            assert(model_object(regions, channels, Obj::Region(x as usize)) != model_object(regions, channels, Obj::Region(y as usize)));
            regions[x].object.lemma_id_injective(regions[y].object);
        }
        lemma_alive_ids(regions, regions.len());
        assert(self.mem.regions().dom() =~= alive_ids(regions, regions.len())) by {
            assert forall|id: u64| self.mem.regions().dom().contains(id) implies alive_ids(regions, regions.len()).contains(id) by {
                assert(self.mem.regions().contains_key(id));
            }
            assert forall|id: u64| alive_ids(regions, regions.len()).contains(id) implies self.mem.regions().dom().contains(id) by {
                let r = choose|r: int| 0 <= r < regions.len() && regions[r].alive && (#[trigger] regions[r].object).id() == id;
                assert(self.region_mirrored(r));
            }
        }
        assert(Rights::NONE().bits() == 0);
        assert forall|x: u32| #[trigger] (x & 0u32) == 0u32 by {
            assert(x & 0u32 == 0u32) by (bit_vector);
        }
        assert forall|r: int| 0 <= r < regions.len() implies (#[trigger] auditor_upto(
            self.stash@,
            regions,
            channels,
            r,
            self.stash@.len(),
        ) matches Some(cap) ==> self.region_audited(r, cap)) by {
            lemma_auditor_found_in_stash(self.stash@, regions, channels, r, self.stash@.len());
            if let Some(cap) = auditor_upto(self.stash@, regions, channels, r, self.stash@.len()) {
                let i = choose|i: int|
                    0 <= i < self.stash@.len() && (#[trigger] self.stash@[i]).0 == cap && self.stash@[i].1.obj == Obj::Region(r as usize)
                        && predicted_check(regions, channels, self.stash@[i].1, Rights::READ()) is Ok;
                let m = self.stash@[i].1;
                assert(mirrors(self.k, regions, channels, cap, m));
                law_model_predicts_check(self.k, regions, channels, cap, m, Rights::READ());
                law_model_predicts_check(self.k, regions, channels, cap, m, Rights::NONE());
                assert(m.rights.bits() & 0u32 == 0u32);
                assert(self.region_mirrored(r));
                assert(cap.object() == regions[r].object);
            }
        }
    }
}

} // verus!
