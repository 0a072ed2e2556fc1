//! A process's private capability table. A process never touches a
//! capability by object identity, only by a `Handle` it was given; the
//! only way a capability enters a table is `Process::grant`.
use std::collections::HashMap;
use vstd::prelude::*;

use crate::capability::Capability;
use crate::clock::{EventClock, ProcessKey};
use crate::process::Stamp;

verus! {

broadcast use vstd::std_specs::hash::group_hash_axioms;

#[derive(Debug, Clone, Copy, PartialEq, Eq, Structural, Hash, PartialOrd, Ord)]
pub struct ProcessId(pub u64);

impl ProcessKey for ProcessId {
    open spec fn key(self) -> u64 {
        self.0
    }

    fn to_key(&self) -> (r: u64) {
        self.0
    }

    proof fn lemma_key_injective(a: Self, b: Self) {
    }
}

/// A process-local reference to one of its own capabilities, meaningful
/// only within the process that holds it, like a file descriptor.
#[derive(Debug, Clone, Copy, PartialEq, Eq, Structural, Hash, PartialOrd, Ord)]
pub struct Handle(pub u32);

pub struct Process {
    id: ProcessId,
    capabilities: HashMap<u32, Capability>,
    next_handle: u32,
    /// Lamport and vector clocks, advanced only by events.
    clock: EventClock<ProcessId>,
}

impl Process {
    /// The capability table, keyed by handle number.
    pub closed spec fn table(&self) -> Map<u32, Capability> {
        self.capabilities@
    }

    /// The handle number the next grant will use.
    pub closed spec fn next_handle(&self) -> u32 {
        self.next_handle
    }

    pub closed spec fn spec_id(&self) -> ProcessId {
        self.id
    }

    /// This process's clocks.
    pub closed spec fn clock_state(&self) -> EventClock<ProcessId> {
        self.clock
    }

    /// Every handle in the table was issued before the next one; the clock
    /// belongs to this process and its counters are within its Lamport time.
    pub closed spec fn wf(&self) -> bool {
        &&& forall|h: u32| #[trigger] self.capabilities@.contains_key(h) ==> h < self.next_handle
        &&& self.clock.owner() == self.id
        &&& self.clock.counts().bounded_by(self.clock.time())
    }

    /// Every handle in use is below the next one to hand out, the clock's
    /// counters are within its Lamport time, and the clock is the process's.
    pub proof fn lemma_wf(&self)
        requires
            self.wf(),
        ensures
            forall|h: u32| #[trigger] self.table().contains_key(h) ==> h < self.next_handle(),
            self.clock_state().counts().bounded_by(self.clock_state().time()),
            self.clock_state().owner() == self.id(),
    {
    }

    /// The capability `capability(handle)` answers.
    pub open spec fn lookup(&self, handle: Handle) -> Option<Capability> {
        if self.table().contains_key(handle.0) {
            Some(self.table()[handle.0])
        } else {
            None
        }
    }

    /// A process with an empty table and no events.
    pub fn new(id: ProcessId) -> (p: Process)
        ensures
            p.wf(),
            p.id() == id,
            p.table() == Map::<u32, Capability>::empty(),
            p.next_handle() == 0,
            p.clock_state().owner() == id,
            p.clock_state().time() == 0,
            forall|key: u64| #[trigger] p.clock_state().counts().count(key) == 0,
    {
        Process { id, capabilities: HashMap::new(), next_handle: 0, clock: EventClock::new(id) }
    }

    #[verifier::when_used_as_spec(spec_id)]
    pub fn id(&self) -> (r: ProcessId)
        ensures
            r == self.id(),
    {
        self.id
    }

    /// Adds `cap` to the table under a fresh handle: the only way a
    /// capability ever enters a table.
    pub fn grant(&mut self, cap: Capability) -> (h: Handle)
        requires
            old(self).wf(),
            old(self).next_handle() < u32::MAX,
        ensures
            final(self).wf(),
            h.0 == old(self).next_handle(),
            !old(self).table().contains_key(h.0),
            final(self).table() == old(self).table().insert(h.0, cap),
            final(self).next_handle() == old(self).next_handle() + 1,
            final(self).id() == old(self).id(),
            final(self).clock_state() == old(self).clock_state(),
    {
        let handle = Handle(self.next_handle);
        self.next_handle = self.next_handle + 1;
        self.capabilities.insert(handle.0, cap);
        handle
    }

    /// The capability at `handle`, if any. A copy: the table keeps it.
    pub fn capability(&self, handle: Handle) -> (r: Option<Capability>)
        ensures
            r == self.lookup(handle),
    {
        match self.capabilities.get(&handle.0) {
            Some(c) => Some(*c),
            None => None,
        }
    }

    /// Removes and returns the capability at `handle`, if any; afterwards
    /// `capability(handle)` is `None`.
    pub fn take(&mut self, handle: Handle) -> (r: Option<Capability>)
        requires
            old(self).wf(),
        ensures
            final(self).wf(),
            r == old(self).lookup(handle),
            final(self).table() == old(self).table().remove(handle.0),
            final(self).next_handle() == old(self).next_handle(),
            final(self).id() == old(self).id(),
            final(self).clock_state() == old(self).clock_state(),
    {
        self.capabilities.remove(&handle.0)
    }

    /// Every handle this process holds, in increasing order.
    pub fn handles(&self) -> (r: Vec<Handle>)
        requires
            self.wf(),
        ensures
            forall|i: int, j: int| 0 <= i < j < r.len() ==> (#[trigger] r@[i]).0 < (#[trigger] r@[j]).0,
            forall|i: int| 0 <= i < r.len() ==> self.table().contains_key((#[trigger] r@[i]).0),
            forall|h: u32| #[trigger] self.table().contains_key(h) ==> exists|i: int|
                0 <= i < r.len() && (#[trigger] r@[i]).0 == h,
    {
        let mut r: Vec<Handle> = Vec::new();
        let mut h: u32 = 0;
        while h < self.next_handle
            invariant
                h <= self.next_handle,
                forall|i: int, j: int| 0 <= i < j < r.len() ==> (#[trigger] r@[i]).0 < (
                #[trigger] r@[j]).0,
                forall|i: int| 0 <= i < r.len() ==> (#[trigger] r@[i]).0 < h,
                forall|i: int| 0 <= i < r.len() ==> self.table().contains_key((#[trigger] r@[i]).0),
                forall|k: u32| #[trigger]
                    self.table().contains_key(k) && k < h ==> exists|i: int|
                        0 <= i < r.len() && (#[trigger] r@[i]).0 == k,
            decreases self.next_handle - h,
        {
            let ghost before = r@;
            if self.capabilities.contains_key(&h) {
                r.push(Handle(h));
                assert(r@[r.len() - 1].0 == h);
            }
            proof {
                assert forall|k: u32| #[trigger]
                    self.table().contains_key(k) && k < h + 1 implies exists|i: int|
                        0 <= i < r.len() && (#[trigger] r@[i]).0 == k by {
                    if k < h {
                        let i = choose|i: int| 0 <= i < before.len() && (#[trigger] before[i]).0 == k;
                        assert(r@[i] == before[i]);
                    } else {
                        assert(r@[r.len() - 1].0 == h);
                    }
                }
            }
            h = h + 1;
        }
        r
    }

    /// The handle number the next grant will use.
    pub fn next_handle_number(&self) -> (r: u32)
        ensures
            r == self.next_handle(),
    {
        self.next_handle
    }

    /// How many capabilities the table holds.
    pub fn handle_count(&self) -> (n: usize)
        ensures
            n == self.table().len(),
    {
        self.capabilities.len()
    }

    /// The stamp of this process's most recent event.
    pub fn clock(&self) -> (s: Stamp)
        ensures
            self.clock_state().stamps_now(s),
    {
        self.clock.current()
    }

    /// Records a purely local event and returns its stamp.
    pub fn record_local_event(&mut self) -> (s: Stamp)
        requires
            old(self).wf(),
            old(self).clock_state().time() < u64::MAX,
        ensures
            final(self).wf(),
            final(self).table() == old(self).table(),
            final(self).next_handle() == old(self).next_handle(),
            final(self).id() == old(self).id(),
            local_step(old(self).clock_state(), final(self).clock_state()),
            final(self).clock_state().stamps_now(s),
    {
        self.clock.local_event()
    }

    /// Records a send event; the returned stamp travels with what was sent.
    pub fn record_send(&mut self) -> (s: Stamp)
        requires
            old(self).wf(),
            old(self).clock_state().time() < u64::MAX,
        ensures
            final(self).wf(),
            final(self).table() == old(self).table(),
            final(self).next_handle() == old(self).next_handle(),
            final(self).id() == old(self).id(),
            local_step(old(self).clock_state(), final(self).clock_state()),
            final(self).clock_state().stamps_now(s),
    {
        self.clock.send_event()
    }

    /// Records receiving something stamped `sent`.
    pub fn record_receive(&mut self, sent: &Stamp) -> (s: Stamp)
        requires
            old(self).wf(),
            old(self).clock_state().time() < u64::MAX,
            sent.lamport() < u64::MAX,
        ensures
            final(self).wf(),
            final(self).table() == old(self).table(),
            final(self).next_handle() == old(self).next_handle(),
            final(self).id() == old(self).id(),
            receive_step(old(self).clock_state(), *sent, final(self).clock_state()),
            final(self).clock_state().stamps_now(s),
    {
        self.clock.receive_event(sent)
    }
}

/// `after` is `before` advanced by one local (or send) event.
pub open spec fn local_step(before: EventClock<ProcessId>, after: EventClock<ProcessId>) -> bool {
    &&& after.owner() == before.owner()
    &&& after.time() == before.time() + 1
    &&& forall|key: u64| #[trigger]
        after.counts().count(key) == (if key == before.owner().key() {
            (before.counts().count(key) + 1) as u64
        } else {
            before.counts().count(key)
        })
    &&& after.counts().bounded_by(after.time())
}

/// `after` is `before` advanced by receiving something stamped `sent`.
pub open spec fn receive_step(
    before: EventClock<ProcessId>,
    sent: Stamp,
    after: EventClock<ProcessId>,
) -> bool {
    &&& after.owner() == before.owner()
    &&& after.time() == crate::clock::lamport::max_time(before.time(), sent.lamport()) + 1
    &&& forall|key: u64| #[trigger]
        after.counts().count(key) == (if key == before.owner().key() {
            (crate::clock::vector::max_count(before.counts().count(key), sent.vector().count(key))
                + 1) as u64
        } else {
            crate::clock::vector::max_count(before.counts().count(key), sent.vector().count(key))
        })
    &&& after.counts().bounded_by(after.time())
}

} // verus!
