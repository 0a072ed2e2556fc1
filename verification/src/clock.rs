//! Logical clocks, the kernel's only ordering primitive: Lamport scalar
//! clocks for a cheap total order consistent with causality, vector
//! clocks for the exact happened-before relation. Nothing here reads
//! physical time.
use vstd::prelude::*;

pub mod lamport;
pub mod vector;

pub use lamport::LamportClock;
pub use vector::{Causality, VectorClock};

verus! {

/// A process identifier usable as a clock key: each value has a distinct
/// 64-bit key.
pub trait ProcessKey: Copy + Sized {
    spec fn key(self) -> u64;

    fn to_key(&self) -> (r: u64)
        ensures
            r == self.key(),
    ;

    proof fn lemma_key_injective(a: Self, b: Self)
        ensures
            a.key() == b.key() ==> a == b,
    ;
}

impl ProcessKey for u32 {
    open spec fn key(self) -> u64 {
        self as u64
    }

    fn to_key(&self) -> (r: u64) {
        *self as u64
    }

    proof fn lemma_key_injective(a: Self, b: Self) {
    }
}

impl ProcessKey for u64 {
    open spec fn key(self) -> u64 {
        self
    }

    fn to_key(&self) -> (r: u64) {
        *self
    }

    proof fn lemma_key_injective(a: Self, b: Self) {
    }
}

impl ProcessKey for usize {
    open spec fn key(self) -> u64 {
        self as u64
    }

    fn to_key(&self) -> (r: u64) {
        *self as u64
    }

    proof fn lemma_key_injective(a: Self, b: Self) {
    }
}

/// The logical timestamp of one event: which process it happened at, its
/// Lamport time and its vector time. No public constructor: a stamp only
/// ever comes from an `EventClock` event, so no process can claim
/// knowledge of events nobody told it about.
#[derive(Debug, PartialEq, Eq)]
pub struct Stamp<K: ProcessKey> {
    process: K,
    lamport: u64,
    vector: VectorClock<K>,
}

impl<K: ProcessKey> Stamp<K> {
    /// No counter exceeds the Lamport time.
    #[verifier::type_invariant]
    spec fn wf(self) -> bool {
        self.vector.bounded_by(self.lamport)
    }

    pub closed spec fn spec_process(&self) -> K {
        self.process
    }

    pub closed spec fn spec_lamport(&self) -> u64 {
        self.lamport
    }

    pub closed spec fn spec_vector(&self) -> &VectorClock<K> {
        &self.vector
    }

    #[verifier::when_used_as_spec(spec_process)]
    pub fn process(&self) -> (r: K)
        ensures
            r == self.process(),
    {
        self.process
    }

    #[verifier::when_used_as_spec(spec_lamport)]
    pub fn lamport(&self) -> (r: u64)
        ensures
            r == self.lamport(),
    {
        self.lamport
    }

    #[verifier::when_used_as_spec(spec_vector)]
    pub fn vector(&self) -> (r: &VectorClock<K>)
        ensures
            r == self.vector(),
            r.bounded_by(self.lamport()),
    {
        proof {
            use_type_invariant(self);
        }
        &self.vector
    }

    /// Lamport's total order: Lamport time, ties broken by process.
    /// Consistent with causality, and it also orders concurrent events,
    /// arbitrarily.
    pub fn total_order_key(&self) -> (r: (u64, K))
        ensures
            r == (self.lamport(), self.process()),
    {
        (self.lamport, self.process)
    }

    pub fn causality(&self, other: &Stamp<K>) -> (r: Causality)
        ensures
            r == self.vector().causality_spec(other.vector()),
    {
        self.vector.compare(&other.vector)
    }

    pub fn happened_before(&self, other: &Stamp<K>) -> (r: bool)
        ensures
            r == (self.vector().causality_spec(other.vector()) == Causality::Before),
    {
        self.vector.happened_before(&other.vector)
    }
}

/// One process's pair of clocks, advanced together. Each method is one
/// event and returns that event's stamp.
#[derive(Debug)]
pub struct EventClock<K: ProcessKey> {
    process: K,
    lamport: LamportClock,
    vector: VectorClock<K>,
}

impl<K: ProcessKey> EventClock<K> {
    #[verifier::type_invariant]
    spec fn wf(self) -> bool {
        self.vector.bounded_by(self.lamport.time())
    }

    /// The process this clock belongs to.
    pub closed spec fn owner(&self) -> K {
        self.process
    }

    /// The Lamport time of the most recent event.
    pub closed spec fn time(&self) -> u64 {
        self.lamport.time()
    }

    /// The vector time of the most recent event.
    pub closed spec fn counts(&self) -> VectorClock<K> {
        self.vector
    }

    /// The stamp `current` gives: this clock's process, Lamport time and
    /// vector counters.
    pub open spec fn stamps_now(&self, s: Stamp<K>) -> bool {
        &&& s.process() == self.owner()
        &&& s.lamport() == self.time()
        &&& forall|key: u64| #[trigger] s.vector().count(key) == self.counts().count(key)
    }

    pub fn new(process: K) -> (c: EventClock<K>)
        ensures
            c.owner() == process,
            c.time() == 0,
            forall|key: u64| #[trigger] c.counts().count(key) == 0,
            c.counts().bounded_by(c.time()),
    {
        EventClock { process, lamport: LamportClock::new(), vector: VectorClock::new() }
    }

    /// The stamp of this process's most recent event (all zeros if none).
    pub fn current(&self) -> (s: Stamp<K>)
        ensures
            self.stamps_now(s),
    {
        proof {
            use_type_invariant(self);
        }
        Stamp { process: self.process, lamport: self.lamport.time(), vector: self.vector.duplicate() }
    }

    /// A purely local event.
    pub fn local_event(&mut self) -> (s: Stamp<K>)
        requires
            old(self).time() < u64::MAX,
        ensures
            final(self).owner() == old(self).owner(),
            final(self).time() == old(self).time() + 1,
            forall|key: u64| #[trigger]
                final(self).counts().count(key) == (if key == old(self).owner().key() {
                    (old(self).counts().count(key) + 1) as u64
                } else {
                    old(self).counts().count(key)
                }),
            final(self).stamps_now(s),
            final(self).counts().bounded_by(final(self).time()),
    {
        proof {
            use_type_invariant(&*self);
        }
        let mut lamport = self.lamport;
        lamport.tick();
        let mut vector = self.vector.duplicate();
        vector.tick(self.process);
        *self = EventClock { process: self.process, lamport, vector };
        proof {
            use_type_invariant(&*self);
        }
        self.current()
    }

    /// A send event. The returned stamp is what the message carries.
    pub fn send_event(&mut self) -> (s: Stamp<K>)
        requires
            old(self).time() < u64::MAX,
        ensures
            final(self).owner() == old(self).owner(),
            final(self).time() == old(self).time() + 1,
            forall|key: u64| #[trigger]
                final(self).counts().count(key) == (if key == old(self).owner().key() {
                    (old(self).counts().count(key) + 1) as u64
                } else {
                    old(self).counts().count(key)
                }),
            final(self).stamps_now(s),
            final(self).counts().bounded_by(final(self).time()),
    {
        self.local_event()
    }

    /// Receiving a message stamped `sent`: merge what the sender knew, then
    /// record the receive as a new event.
    pub fn receive_event(&mut self, sent: &Stamp<K>) -> (s: Stamp<K>)
        requires
            old(self).time() < u64::MAX,
            sent.lamport() < u64::MAX,
        ensures
            final(self).owner() == old(self).owner(),
            final(self).time() == lamport::max_time(old(self).time(), sent.lamport()) + 1,
            forall|key: u64| #[trigger]
                final(self).counts().count(key) == (if key == old(self).owner().key() {
                    (vector::max_count(old(self).counts().count(key), sent.vector().count(key))
                        + 1) as u64
                } else {
                    vector::max_count(old(self).counts().count(key), sent.vector().count(key))
                }),
            final(self).stamps_now(s),
            final(self).counts().bounded_by(final(self).time()),
    {
        proof {
            use_type_invariant(&*self);
            use_type_invariant(sent);
        }
        let mut lamport = self.lamport;
        lamport.observe(sent.lamport);
        let mut vector = self.vector.duplicate();
        vector.merge(&sent.vector);
        vector.tick(self.process);
        *self = EventClock { process: self.process, lamport, vector };
        proof {
            use_type_invariant(&*self);
        }
        self.current()
    }
}

impl<K: ProcessKey> Clone for Stamp<K> {
    fn clone(&self) -> (r: Stamp<K>)
        ensures
            r.process() == self.process(),
            r.lamport() == self.lamport(),
            r.vector().pairs() == self.vector().pairs(),
            forall|key: u64| #[trigger] r.vector().count(key) == self.vector().count(key),
    {
        proof {
            use_type_invariant(self);
        }
        Stamp { process: self.process, lamport: self.lamport, vector: self.vector.duplicate() }
    }
}

impl<K: ProcessKey> Clone for EventClock<K> {
    fn clone(&self) -> (r: EventClock<K>)
        ensures
            r.owner() == self.owner(),
            r.time() == self.time(),
            forall|key: u64| #[trigger] r.counts().count(key) == self.counts().count(key),
    {
        proof {
            use_type_invariant(self);
        }
        EventClock { process: self.process, lamport: self.lamport, vector: self.vector.duplicate() }
    }
}

/// A receive happens after its send: when a clock `before` receives a
/// message stamped `sent` and becomes `after`, the send stamp happened
/// before the receive stamp `r`, and its Lamport time is strictly smaller.
pub proof fn law_receive_happens_after_send<K: ProcessKey>(
    before: EventClock<K>,
    after: EventClock<K>,
    sent: Stamp<K>,
    r: Stamp<K>,
)
    requires
        before.counts().bounded_by(before.time()),
        sent.vector().bounded_by(sent.lamport()),
        before.time() < u64::MAX,
        sent.lamport() < u64::MAX,
        after.owner() == before.owner(),
        after.time() == lamport::max_time(before.time(), sent.lamport()) + 1,
        forall|key: u64| #[trigger]
            after.counts().count(key) == (if key == before.owner().key() {
                (vector::max_count(before.counts().count(key), sent.vector().count(key))
                    + 1) as u64
            } else {
                vector::max_count(before.counts().count(key), sent.vector().count(key))
            }),
        after.stamps_now(r),
    ensures
        sent.vector().causality_spec(r.vector()) == Causality::Before,
        sent.lamport() < r.lamport(),
{
    let own = before.owner().key();
    assert(sent.vector().count(own) < r.vector().count(own));
    assert(forall|key: u64| #[trigger] sent.vector().count(key) <= r.vector().count(key));
}

/// Each local (or send) event happens after every earlier event of the same
/// process: the stamp `prev` of the clock `before` happened before the
/// stamp `r` of the next event, with a strictly larger Lamport time.
pub proof fn law_next_event_happens_after<K: ProcessKey>(
    before: EventClock<K>,
    after: EventClock<K>,
    prev: Stamp<K>,
    r: Stamp<K>,
)
    requires
        before.counts().bounded_by(before.time()),
        before.time() < u64::MAX,
        before.stamps_now(prev),
        after.owner() == before.owner(),
        after.time() == before.time() + 1,
        forall|key: u64| #[trigger]
            after.counts().count(key) == (if key == before.owner().key() {
                (before.counts().count(key) + 1) as u64
            } else {
                before.counts().count(key)
            }),
        after.stamps_now(r),
    ensures
        prev.vector().causality_spec(r.vector()) == Causality::Before,
        prev.lamport() < r.lamport(),
{
    let own = before.owner().key();
    assert(prev.vector().count(own) < r.vector().count(own));
    assert(forall|key: u64| #[trigger] prev.vector().count(key) <= r.vector().count(key));
}

/// The index of the last event before `n` at the process with `key`, or -1
/// when there is none.
pub open spec fn last_before<K: ProcessKey>(ev: Seq<(K, Option<int>)>, key: u64, n: int) -> int
    decreases n,
{
    if n <= 0 {
        -1
    } else if ev[n - 1].0.key() == key {
        n - 1
    } else {
        last_before(ev, key, n - 1)
    }
}

/// In an execution `ev`, event `j` happened at process `ev[j].0`; when
/// `ev[j].1` is `Some(s)`, event `j` received the message that event `s`
/// sent (a child's birth receives its parent's spawn event). This is the
/// event just before `j` at the same process, or -1 for its first event.
pub open spec fn previous_at<K: ProcessKey>(ev: Seq<(K, Option<int>)>, j: int) -> int {
    last_before(ev, ev[j].0.key(), j)
}

/// Ground-truth happened-before, with no clock involved: event `i` reaches
/// event `j` in the event graph, whose edges join each event to the next
/// one at the same process and each send to the receive of its message.
pub open spec fn causally_precedes<K: ProcessKey>(ev: Seq<(K, Option<int>)>, i: int, j: int) -> bool
    decreases j,
{
    if !(0 <= j < ev.len()) {
        false
    } else {
        let p = previous_at(ev, j);
        ||| 0 <= p < j && (p == i || causally_precedes(ev, i, p))
        ||| match ev[j].1 {
            Some(s) => 0 <= s < j && (s == i || causally_precedes(ev, i, s)),
            None => false,
        }
    }
}

/// Each message is received after it was sent.
pub open spec fn receives_earlier<K: ProcessKey>(ev: Seq<(K, Option<int>)>, j: int) -> bool {
    match ev[j].1 {
        Some(s) => 0 <= s < j,
        None => true,
    }
}

/// What event `j`'s clock knows of `key` just before the event: the
/// previous stamp at its process (0 before its first event), merged with
/// the stamp of the message it receives.
pub open spec fn merged_count<K: ProcessKey>(
    ev: Seq<(K, Option<int>)>,
    stamps: Seq<Stamp<K>>,
    j: int,
    key: u64,
) -> u64 {
    let p = previous_at(ev, j);
    let prior = if p >= 0 {
        stamps[p].vector().count(key)
    } else {
        0u64
    };
    match ev[j].1 {
        Some(s) => vector::max_count(prior, stamps[s].vector().count(key)),
        None => prior,
    }
}

/// Event `j`'s Lamport time just before the event, in the same way.
pub open spec fn merged_time<K: ProcessKey>(
    ev: Seq<(K, Option<int>)>,
    stamps: Seq<Stamp<K>>,
    j: int,
) -> u64 {
    let p = previous_at(ev, j);
    let prior = if p >= 0 {
        stamps[p].lamport()
    } else {
        0u64
    };
    match ev[j].1 {
        Some(s) => lamport::max_time(prior, stamps[s].lamport()),
        None => prior,
    }
}

/// `stamps[j]` is the stamp its process's `EventClock` gives event `j`
/// (`local_event`/`send_event`, or `receive_event` of the received stamp).
pub open spec fn clock_stamped<K: ProcessKey>(
    ev: Seq<(K, Option<int>)>,
    stamps: Seq<Stamp<K>>,
    j: int,
) -> bool {
    &&& stamps[j].process() == ev[j].0
    &&& forall|key: u64| #[trigger]
        stamps[j].vector().count(key) as int == merged_count(ev, stamps, j, key) as int + (if key
            == ev[j].0.key() {
            1int
        } else {
            0int
        })
    &&& stamps[j].lamport() as int == merged_time(ev, stamps, j) as int + 1
}

/// Every event of `ev` is stamped by its process's clock, and every message
/// is received after it was sent.
pub open spec fn stamped_execution<K: ProcessKey>(
    ev: Seq<(K, Option<int>)>,
    stamps: Seq<Stamp<K>>,
) -> bool {
    &&& stamps.len() == ev.len()
    &&& forall|j: int| 0 <= j < ev.len() ==> #[trigger] receives_earlier(ev, j)
    &&& forall|j: int| 0 <= j < ev.len() ==> #[trigger] clock_stamped(ev, stamps, j)
}

/// The last event before `n` at a process is before `n`, at that process,
/// and no later event before `n` is.
pub proof fn lemma_last_before<K: ProcessKey>(ev: Seq<(K, Option<int>)>, key: u64, n: int)
    requires
        0 <= n <= ev.len(),
    ensures
        -1 <= last_before(ev, key, n) < n,
        last_before(ev, key, n) >= 0 ==> ev[last_before(ev, key, n)].0.key() == key,
        forall|i: int| last_before(ev, key, n) < i < n ==> (#[trigger] ev[i]).0.key() != key,
    decreases n,
{
    if n > 0 && ev[n - 1].0.key() != key {
        lemma_last_before(ev, key, n - 1);
    }
}

proof fn lemma_precedes_earlier<K: ProcessKey>(ev: Seq<(K, Option<int>)>, i: int, j: int)
    ensures
        causally_precedes(ev, i, j) ==> i < j,
    decreases j,
{
    if causally_precedes(ev, i, j) {
        let p = previous_at(ev, j);
        if 0 <= p < j && (p == i || causally_precedes(ev, i, p)) {
            lemma_precedes_earlier(ev, i, p);
        } else {
            let s = ev[j].1->0;
            lemma_precedes_earlier(ev, i, s);
        }
    }
}

/// Along one process, later events have larger own counters and are
/// causally after the earlier ones.
proof fn lemma_same_process<K: ProcessKey>(
    ev: Seq<(K, Option<int>)>,
    stamps: Seq<Stamp<K>>,
    i: int,
    j: int,
)
    requires
        stamped_execution(ev, stamps),
        0 <= i < j < ev.len(),
        ev[i].0.key() == ev[j].0.key(),
    ensures
        stamps[i].vector().count(ev[i].0.key()) < stamps[j].vector().count(ev[i].0.key()),
        causally_precedes(ev, i, j),
    decreases j,
{
    let q = ev[i].0.key();
    let p = previous_at(ev, j);
    lemma_last_before(ev, q, j);
    assert(clock_stamped(ev, stamps, j));
    assert(p >= i);
    assert(stamps[p].vector().count(q) < stamps[j].vector().count(q));
    if p != i {
        lemma_same_process(ev, stamps, i, p);
    }
}

/// Counters never decrease along a causal path, and Lamport time strictly
/// increases.
proof fn lemma_precedes_dominated<K: ProcessKey>(
    ev: Seq<(K, Option<int>)>,
    stamps: Seq<Stamp<K>>,
    i: int,
    j: int,
)
    requires
        stamped_execution(ev, stamps),
        0 <= i < ev.len(),
        causally_precedes(ev, i, j),
    ensures
        stamps[i].vector().dominated_by(stamps[j].vector()),
        stamps[i].lamport() < stamps[j].lamport(),
    decreases j,
{
    let p = previous_at(ev, j);
    assert(clock_stamped(ev, stamps, j));
    lemma_last_before(ev, ev[j].0.key(), j);
    let k = if 0 <= p < j && (p == i || causally_precedes(ev, i, p)) {
        p
    } else {
        ev[j].1->0
    };
    if k != i {
        lemma_precedes_dominated(ev, stamps, i, k);
    }
    assert forall|key: u64| #[trigger]
        stamps[i].vector().count(key) <= stamps[j].vector().count(key) by {
        assert(stamps[i].vector().count(key) <= stamps[k].vector().count(key));
        assert(stamps[k].vector().count(key) <= merged_count(ev, stamps, j, key));
    }
}

/// If event `j` knows at least as much of event `i`'s process as `i` itself
/// does, then `i` is `j` or causally precedes it.
proof fn lemma_counter_reveals_precedence<K: ProcessKey>(
    ev: Seq<(K, Option<int>)>,
    stamps: Seq<Stamp<K>>,
    i: int,
    j: int,
)
    requires
        stamped_execution(ev, stamps),
        0 <= i < ev.len(),
        0 <= j < ev.len(),
        stamps[i].vector().count(ev[i].0.key()) <= stamps[j].vector().count(ev[i].0.key()),
    ensures
        i == j || causally_precedes(ev, i, j),
    decreases j,
{
    let q = ev[i].0.key();
    if ev[j].0.key() == q {
        if i > j {
            lemma_same_process(ev, stamps, j, i);
        } else if i < j {
            lemma_same_process(ev, stamps, i, j);
        }
    } else {
        let p = previous_at(ev, j);
        lemma_last_before(ev, ev[j].0.key(), j);
        assert(clock_stamped(ev, stamps, j));
        assert(clock_stamped(ev, stamps, i));
        assert(receives_earlier(ev, j));
        assert(stamps[i].vector().count(q) >= 1);
        assert(stamps[j].vector().count(q) == merged_count(ev, stamps, j, q));
        if p >= 0 && stamps[i].vector().count(q) <= stamps[p].vector().count(q) {
            lemma_counter_reveals_precedence(ev, stamps, i, p);
        } else {
            let s = ev[j].1->0;
            assert(stamps[i].vector().count(q) <= stamps[s].vector().count(q));
            lemma_counter_reveals_precedence(ev, stamps, i, s);
        }
    }
}

proof fn lemma_before_iff_precedes<K: ProcessKey>(
    ev: Seq<(K, Option<int>)>,
    stamps: Seq<Stamp<K>>,
    i: int,
    j: int,
)
    requires
        stamped_execution(ev, stamps),
        0 <= i < ev.len(),
        0 <= j < ev.len(),
    ensures
        (stamps[i].vector().causality_spec(stamps[j].vector()) == Causality::Before)
            <==> causally_precedes(ev, i, j),
{
    let vi = stamps[i].vector();
    let vj = stamps[j].vector();
    if causally_precedes(ev, i, j) {
        lemma_precedes_dominated(ev, stamps, i, j);
        lemma_precedes_earlier(ev, i, j);
        if vj.dominated_by(vi) {
            assert(vj.count(ev[j].0.key()) <= vi.count(ev[j].0.key()));
            lemma_counter_reveals_precedence(ev, stamps, j, i);
            lemma_precedes_earlier(ev, j, i);
        }
    }
    if vi.causality_spec(vj) == Causality::Before {
        assert(vi.count(ev[i].0.key()) <= vj.count(ev[i].0.key()));
        lemma_counter_reveals_precedence(ev, stamps, i, j);
    }
}

/// Vector clocks characterize causality exactly. In any execution whose
/// events were all stamped by their processes' clocks, the stamp of event
/// `i` happened before that of event `j` exactly when `i` causally precedes
/// `j` in the event graph; two stamps are equal only for the same event;
/// they are concurrent exactly when neither event reaches the other; and
/// Lamport time strictly increases along every causal path.
pub proof fn law_vector_clocks_characterize_causality<K: ProcessKey>(
    ev: Seq<(K, Option<int>)>,
    stamps: Seq<Stamp<K>>,
    i: int,
    j: int,
)
    requires
        stamped_execution(ev, stamps),
        0 <= i < ev.len(),
        0 <= j < ev.len(),
    ensures
        (stamps[i].vector().causality_spec(stamps[j].vector()) == Causality::Before)
            <==> causally_precedes(ev, i, j),
        (stamps[i].vector().causality_spec(stamps[j].vector()) == Causality::Equal) <==> i == j,
        (stamps[i].vector().causality_spec(stamps[j].vector()) == Causality::Concurrent) <==> (i
            != j && !causally_precedes(ev, i, j) && !causally_precedes(ev, j, i)),
        causally_precedes(ev, i, j) ==> stamps[i].lamport() < stamps[j].lamport(),
{
    let vi = stamps[i].vector();
    let vj = stamps[j].vector();
    lemma_before_iff_precedes(ev, stamps, i, j);
    lemma_before_iff_precedes(ev, stamps, j, i);
    vector::law_compare_antisymmetric(*vi, *vj);
    if causally_precedes(ev, i, j) {
        lemma_precedes_dominated(ev, stamps, i, j);
    }
    if vi.causality_spec(vj) == Causality::Equal && i != j {
        assert(vi.count(ev[i].0.key()) <= vj.count(ev[i].0.key()));
        assert(vj.count(ev[j].0.key()) <= vi.count(ev[j].0.key()));
        lemma_counter_reveals_precedence(ev, stamps, i, j);
        lemma_counter_reveals_precedence(ev, stamps, j, i);
        lemma_precedes_earlier(ev, i, j);
        lemma_precedes_earlier(ev, j, i);
    }
}

/// Stepping a process's `EventClock` stamps an event as the execution model
/// says: when the clock stood at the stamp of the process's previous event
/// (or was new, for its first), a `local_event`/`send_event`, or a
/// `receive_event` of the stamp of the event whose message it receives,
/// gives event `j` a stamp that satisfies `clock_stamped`.
pub proof fn law_clock_steps_stamp_events<K: ProcessKey>(
    ev: Seq<(K, Option<int>)>,
    stamps: Seq<Stamp<K>>,
    j: int,
    before: EventClock<K>,
    after: EventClock<K>,
)
    requires
        0 <= j < ev.len(),
        stamps.len() == ev.len(),
        receives_earlier(ev, j),
        before.owner() == ev[j].0,
        previous_at(ev, j) >= 0 ==> before.stamps_now(stamps[previous_at(ev, j)]),
        previous_at(ev, j) < 0 ==> before.time() == 0 && forall|key: u64| #[trigger]
            before.counts().count(key) == 0,
        after.owner() == before.owner(),
        after.stamps_now(stamps[j]),
        ev[j].1 is None ==> {
            &&& after.time() == before.time() + 1
            &&& forall|key: u64| #[trigger]
                after.counts().count(key) == (if key == before.owner().key() {
                    (before.counts().count(key) + 1) as u64
                } else {
                    before.counts().count(key)
                })
        },
        ev[j].1 matches Some(s) ==> {
            let sent = stamps[s];
            &&& after.time() == lamport::max_time(before.time(), sent.lamport()) + 1
            &&& forall|key: u64| #[trigger]
                after.counts().count(key) == (if key == before.owner().key() {
                    (vector::max_count(before.counts().count(key), sent.vector().count(key))
                        + 1) as u64
                } else {
                    vector::max_count(before.counts().count(key), sent.vector().count(key))
                })
        },
        before.counts().bounded_by(before.time()),
        before.time() < u64::MAX,
        ev[j].1 matches Some(s) ==> stamps[s].vector().bounded_by(stamps[s].lamport()),
        ev[j].1 matches Some(s) ==> stamps[s].lamport() < u64::MAX,
    ensures
        clock_stamped(ev, stamps, j),
{
    let p = previous_at(ev, j);
    let own = ev[j].0.key();
    assert forall|key: u64| #[trigger]
        stamps[j].vector().count(key) as int == merged_count(ev, stamps, j, key) as int + (if key
            == own {
            1int
        } else {
            0int
        }) by {
        assert(stamps[j].vector().count(key) == after.counts().count(key));
        if p >= 0 {
            assert(stamps[p].vector().count(key) == before.counts().count(key));
        } else {
            assert(before.counts().count(key) == 0);
        }
        assert(before.counts().count(key) <= before.time());
        if let Some(sx) = ev[j].1 {
            assert(stamps[sx].vector().count(key) <= stamps[sx].lamport());
        }
    }
}

} // verus!
