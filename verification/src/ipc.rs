//! IPC with capability-carrying messages. A channel is an ordinary
//! capability object: `WRITE` to send, `READ` to receive. A message's
//! capabilities are resolved through the same grant machinery as
//! `Scheduler::spawn_child`; while a message is queued, the capabilities it
//! carries are in no process's table, only in this registry.
use std::collections::{HashMap, VecDeque};
use vstd::prelude::*;

use crate::capability::{CapError, Capability, Kernel, ObjectId};
use crate::process::table::{receive_step, local_step, Handle, Process};
use crate::process::transfer::{
    apply_grants, delivered_as, grant_handle, leaving_handles, moves_bumped, moves_can_bump, resolve_grants,
    resolve_spec, Grant, GrantError,
};
use crate::process::Stamp;
use crate::rights::Rights;

verus! {


broadcast use {vstd::std_specs::hash::group_hash_axioms, crate::rights::group_rights_bits};

/// A queued message: its data, the capabilities it carries and the stamp of
/// the send event.
#[derive(Debug, Clone, PartialEq, Eq)]
pub struct Message {
    pub data: i64,
    pub capabilities: Vec<Capability>,
    pub stamp: Stamp,
}

/// What `receive` hands back: the data, the handles the carried
/// capabilities were granted under in the receiver's table (in message
/// order), the send stamp and the receive stamp.
#[derive(Debug, Clone, PartialEq, Eq)]
pub struct Delivery {
    pub data: i64,
    pub handles: Vec<Handle>,
    pub sent_at: Stamp,
    pub received_at: Stamp,
}

#[derive(Debug, Clone, Copy, PartialEq, Eq, Structural)]
pub enum IpcError {
    /// The object is not a channel this registry created (or it was destroyed).
    UnknownChannel(ObjectId),
    /// The channel capability was refused.
    Capability(CapError),
    /// The batch of carried capabilities was refused.
    Grant(GrantError),
}

/// Every channel's message queue, keyed by the channel object's id. The
/// kernel tracks only authority; the queued messages live here.
pub struct ChannelRegistry {
    queues: HashMap<u64, VecDeque<Message>>,
}

impl ChannelRegistry {
    /// Each channel's queued messages, oldest first, keyed by object id.
    pub closed spec fn queues(&self) -> Map<u64, Seq<Message>> {
        Map::new(|k: u64| self.queues@.contains_key(k), |k: u64| self.queues@[k]@)
    }

    pub fn new() -> (r: ChannelRegistry)
        ensures
            r.queues() == Map::<u64, Seq<Message>>::empty(),
    {
        let r = ChannelRegistry { queues: HashMap::new() };
        proof {
            assert(r.queues() =~= Map::<u64, Seq<Message>>::empty());
        }
        r
    }

    /// Creates a channel object with an empty queue and mints its first,
    /// full capability (`READ|WRITE|GRANT|DESTROY`).
    pub fn new_channel(&mut self, kernel: &mut Kernel) -> (cap: Capability)
        requires
            old(kernel).wf(),
            old(kernel).next_id() < u64::MAX,
        ensures
            final(kernel).wf(),
            cap.object().id() == old(kernel).next_id(),
            !old(kernel).epochs().contains_key(cap.object().id()),
            cap.rights() == channel_rights(),
            cap.epoch() == 0,
            final(kernel).next_id() == old(kernel).next_id() + 1,
            final(kernel).epochs() == old(kernel).epochs().insert(cap.object().id(), 0),
            final(self).queues() == old(self).queues().insert(
                cap.object().id(),
                Seq::<Message>::empty(),
            ),
    {
        let rights = Rights::READ() | Rights::WRITE() | Rights::GRANT() | Rights::DESTROY();
        proof {
            assert(1u32 | 2u32 | 8u32 | 16u32 == 27u32) by (bit_vector);
            assert(Rights::spec_READ().bits() == 1 && Rights::spec_WRITE().bits() == 2);
            assert(Rights::spec_GRANT().bits() == 8 && Rights::spec_DESTROY().bits() == 16);
            assert(rights.bits() == 27);
            assert(Rights::from_bits(rights.bits()) == rights);
        }
        let cap = kernel.new_object(rights);
        self.queues.insert(cap.object().raw(), VecDeque::new());
        proof {
            assert(self.queues() =~= old(self).queues().insert(
                cap.object().id(),
                Seq::<Message>::empty(),
            ));
        }
        cap
    }

    /// Sends `data` and every capability `grants` names (resolved against
    /// `sender`'s table, all-or-nothing) on `channel`, which must grant
    /// `WRITE`. Records a send event at the sender; its stamp travels with
    /// the message and is returned.
    pub fn send(
        &mut self,
        kernel: &mut Kernel,
        channel: &Capability,
        sender: &mut Process,
        grants: Vec<Grant>,
        data: i64,
    ) -> (r: Result<Stamp, IpcError>)
        requires
            old(kernel).wf(),
            old(sender).wf(),
            old(sender).clock_state().time() < u64::MAX,
            moves_can_bump(*old(kernel), old(sender).table(), grants@),
        ensures
            final(kernel).wf(),
            final(sender).wf(),
            r is Err <==> send_refusal(*old(kernel), old(self).queues(), *channel, old(sender).table(), grants@) is Some,
            r is Err ==> r->Err_0 == send_refusal(*old(kernel), old(self).queues(), *channel, old(sender).table(), grants@)->Some_0,
            r is Err ==> *final(kernel) == *old(kernel) && *final(sender) == *old(sender)
                && final(self).queues() == old(self).queues(),
            r is Ok ==> {
                let resolved = resolve_spec(*old(kernel), old(sender).table(), grants@)->Ok_0;
                let id = channel.object().id();
                &&& final(kernel).next_id() == old(kernel).next_id()
                &&& moves_bumped(old(kernel).epochs(), final(kernel).epochs(), grants@, resolved)
                &&& final(sender).table() == old(sender).table().remove_keys(leaving_handles(grants@))
                &&& final(sender).next_handle() == old(sender).next_handle()
                &&& final(sender).id() == old(sender).id()
                &&& local_step(old(sender).clock_state(), final(sender).clock_state())
                &&& final(sender).clock_state().stamps_now(r->Ok_0)
                &&& final(self).queues().dom() == old(self).queues().dom()
                &&& final(self).queues()[id].len() == old(self).queues()[id].len() + 1
                &&& final(self).queues()[id].drop_last() == old(self).queues()[id]
                &&& carries(final(self).queues()[id].last(), data, grants@, resolved, r->Ok_0)
                &&& forall|k: u64| k != id && #[trigger] old(self).queues().contains_key(k)
                    ==> final(self).queues()[k] == old(self).queues()[k]
            },
    {
        match kernel.check(channel, Rights::WRITE()) {
            Ok(()) => {},
            Err(e) => {
                return Err(IpcError::Capability(e));
            },
        }
        let id = channel.object().raw();
        let mut queue = match self.queues.remove(&id) {
            Some(q) => q,
            None => {
                return Err(IpcError::UnknownChannel(channel.object()));
            },
        };
        let resolved = match resolve_grants(kernel, sender, grants.as_slice()) {
            Ok(v) => v,
            Err(e) => {
                self.queues.insert(id, queue);
                proof {
                    assert(self.queues() =~= old(self).queues());
                }
                return Err(IpcError::Grant(e));
            },
        };
        let capabilities = apply_grants(kernel, sender, grants.as_slice(), resolved);
        let stamp = sender.record_send();
        queue.push_back(Message { data, capabilities, stamp: stamp.clone() });
        self.queues.insert(id, queue);
        proof {
            assert(self.queues().dom() =~= old(self).queues().dom());
        }
        Ok(stamp)
    }

    /// Receives the oldest message on `channel`, which must grant `READ`,
    /// granting every capability it carries into `receiver`'s table and
    /// recording a receive event that merges the send stamp. `Ok(None)` on
    /// an empty queue, with no event recorded.
    pub fn receive(&mut self, kernel: &Kernel, channel: &Capability, receiver: &mut Process) -> (r:
        Result<Option<Delivery>, IpcError>)
        requires
            old(receiver).wf(),
            old(receiver).clock_state().time() < u64::MAX,
            old(self).queues().contains_key(channel.object().id()) && old(self).queues()[channel.object().id()].len() > 0 ==> {
                let m = old(self).queues()[channel.object().id()][0];
                &&& m.stamp.lamport() < u64::MAX
                &&& old(receiver).next_handle() + m.capabilities.len() < u32::MAX
            },
        ensures
            final(receiver).wf(),
            r is Err <==> (kernel.check_result(*channel, Rights::READ()) is Err
                || !old(self).queues().contains_key(channel.object().id())),
            kernel.check_result(*channel, Rights::READ()) is Err ==> r == Err::<Option<Delivery>, IpcError>(
                IpcError::Capability(kernel.check_result(*channel, Rights::READ())->Err_0),
            ),
            kernel.check_result(*channel, Rights::READ()) is Ok && !old(self).queues().contains_key(channel.object().id())
                ==> r == Err::<Option<Delivery>, IpcError>(IpcError::UnknownChannel(channel.object())),
            r is Err || r == Ok::<Option<Delivery>, IpcError>(None) ==> *final(receiver) == *old(receiver)
                && final(self).queues() == old(self).queues(),
            r is Ok ==> (r->Ok_0 is None <==> old(self).queues()[channel.object().id()].len() == 0),
            r matches Ok(Some(d)) ==> {
                let id = channel.object().id();
                let m = old(self).queues()[id][0];
                &&& final(self).queues() == old(self).queues().insert(id, old(self).queues()[id].drop_first())
                &&& d.data == m.data
                &&& d.sent_at == m.stamp
                &&& d.handles.len() == m.capabilities.len()
                &&& forall|i: int| 0 <= i < d.handles.len() ==> (#[trigger] d.handles@[i]).0 == old(receiver).next_handle() + i
                &&& final(receiver).next_handle() == old(receiver).next_handle() + m.capabilities.len()
                &&& final(receiver).table() == granted(old(receiver).table(), old(receiver).next_handle(), m.capabilities@)
                &&& final(receiver).id() == old(receiver).id()
                &&& receive_step(old(receiver).clock_state(), m.stamp, final(receiver).clock_state())
                &&& final(receiver).clock_state().stamps_now(d.received_at)
            },
    {
        match kernel.check(channel, Rights::READ()) {
            Ok(()) => {},
            Err(e) => {
                return Err(IpcError::Capability(e));
            },
        }
        let id = channel.object().raw();
        let mut queue = match self.queues.remove(&id) {
            Some(q) => q,
            None => {
                return Err(IpcError::UnknownChannel(channel.object()));
            },
        };
        let message = match queue.pop_front() {
            Some(m) => m,
            None => {
                self.queues.insert(id, queue);
                proof {
                    assert(self.queues() =~= old(self).queues());
                }
                return Ok(None);
            },
        };
        self.queues.insert(id, queue);
        proof {
            assert(self.queues() =~= old(self).queues().insert(id, old(self).queues()[id].drop_first()));
        }
        let received_at = receiver.record_receive(&message.stamp);
        let ghost t0 = receiver.table();
        let ghost n0 = receiver.next_handle();
        let mut handles: Vec<Handle> = Vec::new();
        let mut i: usize = 0;
        proof {
            assert(receiver.table() =~= granted(t0, n0, message.capabilities@.take(0)));
        }
        while i < message.capabilities.len()
            invariant
                0 <= i <= message.capabilities.len(),
                n0 + message.capabilities.len() < u32::MAX,
                receiver.wf(),
                receiver.next_handle() == n0 + i,
                receiver.table() == granted(t0, n0, message.capabilities@.take(i as int)),
                receiver.id() == old(receiver).id(),
                receiver.clock_state().stamps_now(received_at),
                receive_step(old(receiver).clock_state(), message.stamp, receiver.clock_state()),
                handles.len() == i,
                forall|j: int| 0 <= j < i ==> (#[trigger] handles@[j]).0 == n0 + j,
            decreases message.capabilities.len() - i,
        {
            let h = receiver.grant(message.capabilities[i]);
            handles.push(h);
            i = i + 1;
            proof {
                assert(receiver.table() =~= granted(t0, n0, message.capabilities@.take(i as int)));
            }
        }
        proof {
            assert(message.capabilities@.take(message.capabilities.len() as int) == message.capabilities@);
        }
        Ok(Some(Delivery { data: message.data, handles, sent_at: message.stamp, received_at }))
    }

    /// How many messages are queued on `channel`, if it is a channel.
    pub fn queue_len(&self, channel: &Capability) -> (r: Option<usize>)
        ensures
            r == (if self.queues().contains_key(channel.object().id()) {
                Some(self.queues()[channel.object().id()].len() as usize)
            } else {
                None::<usize>
            }),
    {
        match self.queues.get(&channel.object().raw()) {
            Some(q) => Some(q.len()),
            None => None,
        }
    }
}

impl ChannelRegistry {
    /// The oldest message waiting on `channel`: the Lamport time of its send
    /// and how many capabilities it carries.
    pub fn front(&self, channel: &Capability) -> (r: Option<(u64, usize)>)
        ensures
            match r {
                Some((t, n)) => {
                    let q = self.queues()[channel.object().id()];
                    &&& self.queues().contains_key(channel.object().id())
                    &&& q.len() > 0
                    &&& t == q[0].stamp.lamport()
                    &&& n == q[0].capabilities.len()
                },
                None => !self.queues().contains_key(channel.object().id())
                    || self.queues()[channel.object().id()].len() == 0,
            },
    {
        match self.queues.get(&channel.object().raw()) {
            Some(q) => {
                if q.len() == 0 {
                    None
                } else {
                    let m = &q[0];
                    Some((m.stamp.lamport(), m.capabilities.len()))
                }
            },
            None => None,
        }
    }
}

/// The rights of a channel's first capability.
pub open spec fn channel_rights() -> Rights {
    Rights::from_bits(27)
}

/// `table` with `caps[i]` granted under handle `first + i`.
pub open spec fn granted(table: Map<u32, Capability>, first: u32, caps: Seq<Capability>) -> Map<
    u32,
    Capability,
> {
    Map::new(
        |h: u32| table.contains_key(h) || (first <= h < first + caps.len()),
        |h: u32|
            if first <= h < first + caps.len() {
                caps[h - first]
            } else {
                table[h]
            },
    )
}

/// Two stamps of the same event: same process, Lamport time and counters.
pub open spec fn same_stamp(a: Stamp, b: Stamp) -> bool {
    &&& a.process() == b.process()
    &&& a.lamport() == b.lamport()
    &&& forall|key: u64| #[trigger] a.vector().count(key) == b.vector().count(key)
}

/// The message carries `data`, what the batch delivered and the send stamp.
pub open spec fn carries(
    m: Message,
    data: i64,
    grants: Seq<Grant>,
    resolved: Seq<Capability>,
    stamp: Stamp,
) -> bool {
    &&& m.data == data
    &&& same_stamp(m.stamp, stamp)
    &&& m.capabilities.len() == grants.len()
    &&& forall|i: int|
        0 <= i < grants.len() ==> delivered_as(
            #[trigger] grants[i],
            resolved[i],
            m.capabilities@[i],
        )
}

/// Which way `send` goes: the channel capability is checked for `WRITE`
/// first, then the channel must exist, then the batch must resolve.
pub open spec fn send_refusal(
    k: Kernel,
    queues: Map<u64, Seq<Message>>,
    channel: Capability,
    table: Map<u32, Capability>,
    grants: Seq<Grant>,
) -> Option<IpcError> {
    match k.check_result(channel, Rights::WRITE()) {
        Err(e) => Some(IpcError::Capability(e)),
        Ok(_) => if !queues.contains_key(channel.object().id()) {
            Some(IpcError::UnknownChannel(channel.object()))
        } else {
            match resolve_spec(k, table, grants) {
                Err(e) => Some(IpcError::Grant(e)),
                Ok(_) => None,
            }
        },
    }
}

/// Channels are FIFO, and a receive gives back what the matching send put
/// in: when a channel's queue is `before` and a send appends `m`, a later
/// receive that finds the queue as `after` gets the front of `before` (or
/// `m` itself when `before` was empty), and the rest stays in order.
pub proof fn law_fifo_delivery(before: Seq<Message>, m: Message, after: Seq<Message>)
    requires
        after.len() == before.len() + 1,
        after.drop_last() == before,
        after.last() == m,
    ensures
        after[0] == (if before.len() == 0 {
            m
        } else {
            before[0]
        }),
        after.drop_first().len() == before.len(),
        before.len() > 0 ==> after.drop_first() == before.drop_first().push(m),
{
    if before.len() > 0 {
        assert(after.drop_first() =~= before.drop_first().push(m));
    } else {
        assert(after[0] == after.last());
    }
}

/// A capability sent by `Transfer` is, while in flight, in no process's
/// table: the sender's handle is gone and the receiver has not been granted
/// anything yet; it exists only in the queued message.
pub proof fn law_transfer_leaves_the_sender(
    before: Map<u32, Capability>,
    after: Map<u32, Capability>,
    grants: Seq<Grant>,
    i: int,
)
    requires
        0 <= i < grants.len(),
        grants[i] is Transfer,
        after == before.remove_keys(leaving_handles(grants)),
    ensures
        !after.contains_key(grant_handle(grants[i]).0),
{
    assert(leaving_handles(grants).contains(grant_handle(grants[i]).0));
}

/// A capability received over IPC never grants more than the sender held:
/// a derived grant delivers exactly the requested rights, all of which the
/// sender's capability held, for the same object.
pub proof fn law_received_derivation_never_amplifies(
    k: Kernel,
    table: Map<u32, Capability>,
    grants: Seq<Grant>,
    resolved: Seq<Capability>,
    i: int,
    delivered: Capability,
)
    requires
        resolve_spec(k, table, grants) == Ok::<Seq<Capability>, GrantError>(resolved),
        0 <= i < grants.len(),
        grants[i] is Derive,
        delivered_as(grants[i], resolved[i], delivered),
    ensures
        ({
            let held = table[grant_handle(grants[i]).0];
            &&& delivered.rights() == grants[i]->Derive_1
            &&& held.rights().spec_contains(delivered.rights())
            &&& delivered.object() == held.object()
        }),
{
    crate::process::transfer::lemma_resolve_prefix(k, table, grants, grants.len());
    let held = table[grant_handle(grants[i]).0];
    held.lemma_with_rights(grants[i]->Derive_1);
}

} // verus!
