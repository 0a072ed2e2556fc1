//! Process spawning and a cooperative scheduler ordered only by FIFO
//! ready-queue position, never by a wall clock. `spawn_child` is where "no
//! ambient authority" is enforced: a child starts with an empty table and
//! receives only what the caller names.
use std::collections::VecDeque;
use vstd::prelude::*;

use crate::capability::{Capability, Kernel};
use crate::process::table::{Process, ProcessId};
use crate::process::transfer::{
    apply_grants, delivered_as, leaving_handles, moves_bumped, moves_can_bump, resolve_grants,
    resolve_spec, Grant, GrantError,
};

verus! {

#[derive(Debug, Clone, Copy, PartialEq, Eq, Structural)]
pub enum ProcessError {
    /// No such process.
    UnknownProcess(ProcessId),
    /// The grant batch was refused.
    Grant(GrantError),
}

pub struct Scheduler {
    processes: Vec<Process>,
    next_process_id: u64,
    /// The only notion of order: position in a FIFO queue, advanced by
    /// `schedule_next`.
    ready_queue: VecDeque<ProcessId>,
}

impl Scheduler {
    /// Every process, indexed by its id.
    pub closed spec fn procs(&self) -> Seq<Process> {
        self.processes@
    }

    /// The ready queue, front first.
    pub closed spec fn ready(&self) -> Seq<ProcessId> {
        self.ready_queue@
    }

    /// The id the next spawned process will get.
    pub closed spec fn next_pid(&self) -> u64 {
        self.next_process_id
    }

    /// Process `i` has id `i` and is well formed; ids are handed out in order.
    pub closed spec fn wf(&self) -> bool {
        &&& self.processes@.len() == self.next_process_id
        &&& forall|i: int|
            0 <= i < self.processes@.len() ==> (#[trigger] self.processes@[i]).id() == ProcessId(
                i as u64,
            ) && self.processes@[i].wf()
    }

    /// What well-formedness says of the processes.
    pub proof fn lemma_wf(&self)
        requires
            self.wf(),
        ensures
            self.procs().len() == self.next_pid(),
            forall|i: int|
                0 <= i < self.procs().len() ==> (#[trigger] self.procs()[i]).id() == ProcessId(i as u64)
                    && self.procs()[i].wf(),
    {
    }

    /// Replacing a process by a well-formed one with the same id keeps the
    /// scheduler well formed.
    pub proof fn lemma_update_wf(before: Scheduler, after: Scheduler, i: int, p: Process)
        requires
            before.wf(),
            0 <= i < before.procs().len(),
            after.procs() == before.procs().update(i, p),
            after.next_pid() == before.next_pid(),
            p.wf(),
            p.id() == before.procs()[i].id(),
        ensures
            after.wf(),
    {
        assert forall|k: int| 0 <= k < after.processes@.len() implies (#[trigger] after.processes@[k]).id()
            == ProcessId(k as u64) && after.processes@[k].wf() by {
            if k != i {
                assert(after.processes@[k] == before.processes@[k]);
            }
        }
    }

    /// The process `process(id)` answers.
    pub open spec fn lookup(&self, id: ProcessId) -> Option<Process> {
        if id.0 < self.procs().len() {
            Some(self.procs()[id.0 as int])
        } else {
            None
        }
    }

    pub fn new() -> (s: Scheduler)
        ensures
            s.wf(),
            s.procs() == Seq::<Process>::empty(),
            s.ready() == Seq::<ProcessId>::empty(),
            s.next_pid() == 0,
    {
        Scheduler { processes: Vec::new(), next_process_id: 0, ready_queue: VecDeque::new() }
    }

    pub fn process(&self, id: ProcessId) -> (r: Option<&Process>)
        ensures
            match r {
                Some(p) => self.lookup(id) == Some(*p),
                None => self.lookup(id) is None,
            },
    {
        if id.0 < self.processes.len() as u64 {
            Some(&self.processes[id.0 as usize])
        } else {
            None
        }
    }

    /// Mutable access to one process's own table: what IPC needs, since it
    /// deals with individual processes, not with scheduling.
    pub fn process_mut(&mut self, id: ProcessId) -> (r: Option<&mut Process>)
        ensures
            match r {
                Some(p) => {
                    &&& id.0 < old(self).procs().len()
                    &&& *p == old(self).procs()[id.0 as int]
                    &&& final(self).procs() == old(self).procs().update(id.0 as int, *final(p))
                    &&& final(self).ready() == old(self).ready()
                    &&& final(self).next_pid() == old(self).next_pid()
                },
                None => {
                    &&& old(self).lookup(id) is None
                    &&& *final(self) == *old(self)
                },
            },
    {
        if id.0 < self.processes.len() as u64 {
            Some(&mut self.processes[id.0 as usize])
        } else {
            None
        }
    }

    pub fn process_count(&self) -> (n: usize)
        ensures
            n == self.procs().len(),
    {
        self.processes.len()
    }

    fn fresh_id(&mut self) -> (id: ProcessId)
        requires
            old(self).next_pid() < u64::MAX,
        ensures
            id == ProcessId(old(self).next_pid()),
            final(self).next_pid() == old(self).next_pid() + 1,
            final(self).procs() == old(self).procs(),
            final(self).ready() == old(self).ready(),
    {
        let id = ProcessId(self.next_process_id);
        self.next_process_id = self.next_process_id + 1;
        id
    }

    /// Spawns a root process holding exactly the capabilities in `initial`,
    /// under handles 0, 1, ... in order, and queues it to run.
    pub fn spawn(&mut self, initial: Vec<Capability>) -> (id: ProcessId)
        requires
            old(self).wf(),
            old(self).next_pid() < u64::MAX,
            initial.len() < u32::MAX,
        ensures
            final(self).wf(),
            id == ProcessId(old(self).next_pid()),
            final(self).next_pid() == old(self).next_pid() + 1,
            final(self).procs().len() == old(self).procs().len() + 1,
            final(self).procs().drop_last() == old(self).procs(),
            holds_exactly(final(self).procs().last(), initial@),
            fresh_clock(final(self).procs().last().clock_state(), id),
            final(self).ready() == old(self).ready().push(id),
    {
        let id = self.fresh_id();
        let mut proc = Process::new(id);
        let mut i: usize = 0;
        proof {
            assert(proc.table() =~= table_of(initial@.take(0)));
        }
        while i < initial.len()
            invariant
                0 <= i <= initial.len(),
                initial.len() < u32::MAX,
                proc.wf(),
                proc.id() == id,
                proc.next_handle() == i,
                holds_exactly(proc, initial@.take(i as int)),
                fresh_clock(proc.clock_state(), id),
            decreases initial.len() - i,
        {
            proc.grant(initial[i]);
            i = i + 1;
            proof {
                assert(proc.table() =~= table_of(initial@.take(i as int)));
            }
        }
        proof {
            assert(initial@.take(initial.len() as int) == initial@);
        }
        self.processes.push(proc);
        self.ready_queue.push_back(id);
        proof {
            assert(self.procs().drop_last() =~= old(self).procs());
        }
        id
    }

    /// Spawns a child of `parent` holding exactly the capabilities `grants`
    /// names, resolved against the parent's table all-or-nothing: a refused
    /// batch changes nothing. The spawn is a send event at the parent whose
    /// stamp the child's first event receives.
    pub fn spawn_child(
        &mut self,
        kernel: &mut Kernel,
        parent: ProcessId,
        grants: Vec<Grant>,
    ) -> (r: Result<ProcessId, ProcessError>)
        requires
            old(self).wf(),
            old(kernel).wf(),
            old(self).next_pid() < u64::MAX,
            grants.len() < u32::MAX,
            parent.0 < old(self).procs().len() ==> {
                let pp = old(self).procs()[parent.0 as int];
                &&& pp.clock_state().time() < u64::MAX - 1
                &&& moves_can_bump(*old(kernel), pp.table(), grants@)
            },
        ensures
            final(self).wf(),
            final(kernel).wf(),
            old(self).lookup(parent) is None ==> r == Err::<ProcessId, ProcessError>(
                ProcessError::UnknownProcess(parent),
            ),
            old(self).lookup(parent) is Some ==> {
                let pp = old(self).procs()[parent.0 as int];
                let res = resolve_spec(*old(kernel), pp.table(), grants@);
                &&& res is Err ==> r == Err::<ProcessId, ProcessError>(
                    ProcessError::Grant(res->Err_0),
                )
                &&& res is Ok <==> r is Ok
                &&& r is Ok ==> spawned_child(
                    *old(self),
                    *final(self),
                    *old(kernel),
                    *final(kernel),
                    parent,
                    grants@,
                    res->Ok_0,
                    r->Ok_0,
                )
            },
            r is Err ==> *final(self) == *old(self) && *final(kernel) == *old(kernel),
    {
        if parent.0 >= self.processes.len() as u64 {
            return Err(ProcessError::UnknownProcess(parent));
        }
        let pi = parent.0 as usize;
        let resolved = match resolve_grants(kernel, &self.processes[pi], grants.as_slice()) {
            Ok(v) => v,
            Err(e) => {
                return Err(ProcessError::Grant(e));
            },
        };
        let ghost old_parent = self.processes@[pi as int];
        let ghost resolved_seq = resolved@;
        let child_id = self.fresh_id();
        let mut parent_proc = Process::new(parent);
        std::mem::swap(&mut parent_proc, &mut self.processes[pi]);
        let delivered = apply_grants(kernel, &mut parent_proc, grants.as_slice(), resolved);
        let sent = parent_proc.record_send();
        let ghost new_parent = parent_proc;
        std::mem::swap(&mut parent_proc, &mut self.processes[pi]);
        let mut child = Process::new(child_id);
        child.record_receive(&sent);
        let ghost born = child;
        let mut i: usize = 0;
        proof {
            assert(child.table() =~= table_of(delivered@.take(0)));
        }
        while i < delivered.len()
            invariant
                0 <= i <= delivered.len(),
                delivered.len() < u32::MAX,
                child.wf(),
                child.id() == child_id,
                child.next_handle() == i,
                child.clock_state() == born.clock_state(),
                holds_exactly(child, delivered@.take(i as int)),
            decreases delivered.len() - i,
        {
            child.grant(delivered[i]);
            i = i + 1;
            proof {
                assert(child.table() =~= table_of(delivered@.take(i as int)));
            }
        }
        proof {
            assert(delivered@.take(delivered.len() as int) == delivered@);
        }
        self.processes.push(child);
        self.ready_queue.push_back(child_id);
        proof {
            assert(self.procs().drop_last() =~= old(self).procs().update(parent.0 as int, new_parent));
        }
        Ok(child_id)
    }

    /// Advances the cooperative round-robin: returns the process at the
    /// front of the ready queue and moves it to the back.
    pub fn schedule_next(&mut self) -> (r: Option<ProcessId>)
        requires
            old(self).wf(),
        ensures
            final(self).wf(),
            final(self).procs() == old(self).procs(),
            final(self).next_pid() == old(self).next_pid(),
            old(self).ready().len() == 0 ==> r is None && final(self).ready() == old(self).ready(),
            old(self).ready().len() > 0 ==> r == Some(old(self).ready()[0]) && final(self).ready()
                == old(self).ready().drop_first().push(old(self).ready()[0]),
    {
        let id = match self.ready_queue.pop_front() {
            Some(id) => id,
            None => {
                return None;
            },
        };
        self.ready_queue.push_back(id);
        Some(id)
    }
}

/// The table that holds `caps[i]` under handle `i`.
pub open spec fn table_of(caps: Seq<Capability>) -> Map<u32, Capability> {
    Map::new(|h: u32| h < caps.len(), |h: u32| caps[h as int])
}

/// The process holds exactly `caps`, `caps[i]` under handle `i`.
pub open spec fn holds_exactly(p: Process, caps: Seq<Capability>) -> bool {
    p.table() == table_of(caps) && p.next_handle() == caps.len()
}

/// A clock of `id` with no event recorded.
pub open spec fn fresh_clock(c: crate::clock::EventClock<ProcessId>, id: ProcessId) -> bool {
    &&& c.owner() == id
    &&& c.time() == 0
    &&& forall|key: u64| #[trigger] c.counts().count(key) == 0
}

/// `after` is `before` with `child` spawned from `parent` by `grants`,
/// which resolved to `resolved`: the parent lost every transferred or moved
/// handle and recorded a send, every moved object was reissued, and the
/// child holds exactly what the batch delivered, its first event receiving
/// the parent's send.
pub open spec fn spawned_child(
    before: Scheduler,
    after: Scheduler,
    k_before: Kernel,
    k_after: Kernel,
    parent: ProcessId,
    grants: Seq<Grant>,
    resolved: Seq<Capability>,
    child: ProcessId,
) -> bool {
    let pp = before.procs()[parent.0 as int];
    let np = after.procs()[parent.0 as int];
    let c = after.procs().last();
    &&& child == ProcessId(before.next_pid())
    &&& after.next_pid() == before.next_pid() + 1
    &&& after.procs().len() == before.procs().len() + 1
    &&& after.procs().drop_last() == before.procs().update(parent.0 as int, np)
    &&& after.ready() == before.ready().push(child)
    &&& np.id() == pp.id()
    &&& np.next_handle() == pp.next_handle()
    &&& np.table() == pp.table().remove_keys(leaving_handles(grants))
    &&& crate::process::table::local_step(pp.clock_state(), np.clock_state())
    &&& k_after.next_id() == k_before.next_id()
    &&& moves_bumped(k_before.epochs(), k_after.epochs(), grants, resolved)
    &&& c.id() == child
    &&& c.next_handle() == grants.len()
    &&& c.table().dom() == Set::new(|h: u32| h < grants.len())
    &&& forall|h: u32| h < grants.len() ==> delivered_as(#[trigger] grants[h as int], resolved[h as int], c.table()[h])
    &&& c.clock_state().owner() == child
    &&& c.clock_state().time() == np.clock_state().time() + 1
    &&& forall|key: u64| #[trigger] c.clock_state().counts().count(key) == (if key == child.0 {
        (crate::clock::vector::max_count(0, np.clock_state().counts().count(key)) + 1) as u64
    } else {
        crate::clock::vector::max_count(0, np.clock_state().counts().count(key))
    })
}

} // verus!
