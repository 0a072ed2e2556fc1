//! Vector clocks: one counter per process. Unlike a Lamport clock they
//! characterize causality exactly: `a` happened before `b` iff `V(a) < V(b)`
//! pointwise, and two events are concurrent iff neither vector dominates
//! the other.
//!
//! Stored sparsely as `(process, counter)` pairs in increasing key order;
//! a process absent from the list has counter 0 and no pair ever holds 0.
use core::cmp::Ordering;
use vstd::prelude::*;
use vstd::std_specs::cmp::{PartialEqSpecImpl, PartialOrdSpecImpl};

use crate::clock::ProcessKey;

verus! {

/// How two vector timestamps relate causally.
#[derive(Debug, Clone, Copy, PartialEq, Eq, Structural)]
pub enum Causality {
    /// `self` happened before `other`.
    Before,
    /// `self` happened after `other`.
    After,
    /// The same timestamp.
    Equal,
    /// Neither happened before the other.
    Concurrent,
}

#[derive(Debug)]
pub struct VectorClock<K: ProcessKey> {
    entries: Vec<(K, u64)>,
}

/// The counter a sequence of pairs gives `key` (0 when absent).
pub open spec fn seq_count<K: ProcessKey>(s: Seq<(K, u64)>, key: u64) -> u64 {
    if exists|i: int| 0 <= i < s.len() && (#[trigger] s[i]).0.key() == key {
        s[choose|i: int| 0 <= i < s.len() && (#[trigger] s[i]).0.key() == key].1
    } else {
        0
    }
}

/// Keys strictly increase along the sequence and no counter is zero.
pub open spec fn sorted_positive<K: ProcessKey>(s: Seq<(K, u64)>) -> bool {
    &&& forall|i: int, j: int| 0 <= i < j < s.len() ==> (#[trigger] s[i]).0.key() < (#[trigger] s[j]).0.key()
    &&& forall|i: int| 0 <= i < s.len() ==> (#[trigger] s[i]).1 > 0
}

pub proof fn lemma_seq_count_at<K: ProcessKey>(s: Seq<(K, u64)>, i: int)
    requires
        sorted_positive(s),
        0 <= i < s.len(),
    ensures
        seq_count(s, s[i].0.key()) == s[i].1,
{
    let key = s[i].0.key();
    assert(exists|j: int| 0 <= j < s.len() && (#[trigger] s[j]).0.key() == key);
    let j = choose|j: int| 0 <= j < s.len() && (#[trigger] s[j]).0.key() == key;
    if j < i {
        assert(s[j].0.key() < s[i].0.key());
    } else if j > i {
        assert(s[i].0.key() < s[j].0.key());
    }
}

pub proof fn lemma_seq_count_absent<K: ProcessKey>(s: Seq<(K, u64)>, key: u64)
    requires
        forall|i: int| 0 <= i < s.len() ==> (#[trigger] s[i]).0.key() != key,
    ensures
        seq_count(s, key) == 0,
{
}

/// A key with a nonzero counter appears in the sequence.
pub proof fn lemma_seq_count_positive<K: ProcessKey>(s: Seq<(K, u64)>, key: u64)
    requires
        sorted_positive(s),
        seq_count(s, key) > 0,
    ensures
        exists|i: int| 0 <= i < s.len() && (#[trigger] s[i]).0.key() == key,
{
}

/// Where in `s` a key belongs: the first index whose key is not smaller.
pub open spec fn insert_point<K: ProcessKey>(s: Seq<(K, u64)>, pos: int, key: u64) -> bool {
    &&& 0 <= pos <= s.len()
    &&& forall|j: int| 0 <= j < pos ==> (#[trigger] s[j]).0.key() < key
    &&& pos < s.len() ==> s[pos].0.key() >= key
}

/// Setting `k`'s counter to a positive `v` at its insertion point keeps the
/// sequence sorted and changes only `k`'s counter.
#[verifier::spinoff_prover]
#[verifier::rlimit(40)]
pub proof fn lemma_seq_set<K: ProcessKey>(s: Seq<(K, u64)>, pos: int, k: K, v: u64) -> (t: Seq<
    (K, u64),
>)
    requires
        sorted_positive(s),
        insert_point(s, pos, k.key()),
        v > 0,
    ensures
        t == (if pos < s.len() && s[pos].0.key() == k.key() {
            s.update(pos, (k, v))
        } else {
            s.insert(pos, (k, v))
        }),
        sorted_positive(t),
        forall|key: u64| #[trigger]
            seq_count(t, key) == (if key == k.key() {
                v
            } else {
                seq_count(s, key)
            }),
{
    let t = if pos < s.len() && s[pos].0.key() == k.key() {
        s.update(pos, (k, v))
    } else {
        s.insert(pos, (k, v))
    };
    assert(sorted_positive(t)) by {
        assert forall|a: int, b: int| 0 <= a < b < t.len() implies (#[trigger] t[a]).0.key() < (
        #[trigger] t[b]).0.key() by {
            if pos < s.len() && s[pos].0.key() == k.key() {
            } else {
                if a < pos && b == pos {
                } else if a < pos && b > pos {
                    assert(t[b] == s[b - 1]);
                    if pos < s.len() {
                        assert(s[pos].0.key() >= k.key());
                        if b - 1 > pos {
                            assert(s[pos].0.key() < s[b - 1].0.key());
                        }
                    }
                } else if a == pos {
                    assert(t[b] == s[b - 1]);
                    assert(pos < s.len());
                    if b - 1 > pos {
                        assert(s[pos].0.key() < s[b - 1].0.key());
                    }
                    assert(s[pos].0.key() != k.key());
                } else if a > pos {
                    assert(t[a] == s[a - 1]);
                    assert(t[b] == s[b - 1]);
                }
            }
        }
    }
    assert forall|key: u64| #[trigger]
        seq_count(t, key) == (if key == k.key() {
            v
        } else {
            seq_count(s, key)
        }) by {
        if key == k.key() {
            assert(t[pos] == (k, v));
            lemma_seq_count_at(t, pos);
        } else {
            let present = exists|i: int| 0 <= i < s.len() && (#[trigger] s[i]).0.key() == key;
            if present {
                let i = choose|i: int| 0 <= i < s.len() && (#[trigger] s[i]).0.key() == key;
                lemma_seq_count_at(s, i);
                if pos < s.len() && s[pos].0.key() == k.key() {
                    assert(i != pos);
                    assert(t[i] == s[i]);
                    lemma_seq_count_at(t, i);
                } else if i < pos {
                    assert(t[i] == s[i]);
                    lemma_seq_count_at(t, i);
                } else {
                    assert(t[i + 1] == s[i]);
                    lemma_seq_count_at(t, i + 1);
                }
            } else {
                assert forall|i: int| 0 <= i < t.len() implies (#[trigger] t[i]).0.key() != key by {
                    if pos < s.len() && s[pos].0.key() == k.key() {
                        if i != pos {
                            assert(t[i] == s[i]);
                        }
                    } else if i < pos {
                        assert(t[i] == s[i]);
                    } else if i > pos {
                        assert(t[i] == s[i - 1]);
                    }
                }
                lemma_seq_count_absent(t, key);
            }
        }
    }
    t
}

impl<K: ProcessKey> VectorClock<K> {
    #[verifier::type_invariant]
    spec fn wf(self) -> bool {
        sorted_positive(self.entries@)
    }

    /// `process`'s counter (0 if it has never been seen).
    pub closed spec fn count(&self, key: u64) -> u64 {
        seq_count(self.entries@, key)
    }

    /// A key that belongs to no process has counter 0: only a process's
    /// key ever gets a counter.
    pub proof fn lemma_count_outside_keys(&self, key: u64)
        requires
            forall|k: K| #[trigger] k.key() != key,
        ensures
            self.count(key) == 0,
    {
        assert forall|i: int| 0 <= i < self.entries@.len() implies (#[trigger] self.entries@[i]).0.key() != key by {
            let k = self.entries@[i].0;
            assert(k.key() != key);
        }
    }

    /// The `(process, counter)` pairs in increasing key order.
    pub closed spec fn pairs(&self) -> Seq<(K, u64)> {
        self.entries@
    }

    /// Every counter of `self` is at most the matching counter of `other`.
    pub open spec fn dominated_by(&self, other: &VectorClock<K>) -> bool {
        forall|key: u64| #[trigger] self.count(key) <= other.count(key)
    }

    /// The causal relation `compare` reports.
    pub open spec fn causality_spec(&self, other: &VectorClock<K>) -> Causality {
        let le = self.dominated_by(other);
        let ge = other.dominated_by(self);
        if le && ge {
            Causality::Equal
        } else if le {
            Causality::Before
        } else if ge {
            Causality::After
        } else {
            Causality::Concurrent
        }
    }

    /// Every counter is at most `bound`.
    pub open spec fn bounded_by(&self, bound: u64) -> bool {
        forall|key: u64| #[trigger] self.count(key) <= bound
    }

    /// The clock with every counter 0.
    pub fn new() -> (v: VectorClock<K>)
        ensures
            forall|key: u64| #[trigger] v.count(key) == 0,
    {
        VectorClock { entries: Vec::new() }
    }

    /// `process`'s counter (0 if it has never been seen).
    pub fn get(&self, process: K) -> (r: u64)
        ensures
            r == self.count(process.key()),
    {
        proof {
            use_type_invariant(self);
        }
        let key = process.to_key();
        let mut i: usize = 0;
        while i < self.entries.len()
            invariant
                0 <= i <= self.entries.len(),
                key == process.key(),
                sorted_positive(self.entries@),
                forall|j: int| 0 <= j < i ==> (#[trigger] self.entries@[j]).0.key() != key,
            decreases self.entries.len() - i,
        {
            let (k, c) = self.entries[i];
            if k.to_key() == key {
                proof {
                    lemma_seq_count_at(self.entries@, i as int);
                }
                return c;
            }
            i = i + 1;
        }
        proof {
            lemma_seq_count_absent(self.entries@, key);
        }
        0
    }

    /// Sets `k`'s counter to the positive `v`.
    fn set(&mut self, k: K, v: u64)
        requires
            v > 0,
        ensures
            forall|key: u64| #[trigger]
                final(self).count(key) == (if key == k.key() {
                    v
                } else {
                    old(self).count(key)
                }),
    {
        proof {
            use_type_invariant(&*self);
        }
        let mut e: Vec<(K, u64)> = Vec::new();
        std::mem::swap(&mut e, &mut self.entries);
        let key = k.to_key();
        let mut pos: usize = 0;
        while pos < e.len() && e[pos].0.to_key() < key
            invariant
                0 <= pos <= e.len(),
                key == k.key(),
                forall|j: int| 0 <= j < pos ==> (#[trigger] e@[j]).0.key() < key,
            decreases e.len() - pos,
        {
            pos = pos + 1;
        }
        let ghost s = e@;
        proof {
            lemma_seq_set(s, pos as int, k, v);
        }
        if pos < e.len() && e[pos].0.to_key() == key {
            e[pos] = (k, v);
        } else {
            e.insert(pos, (k, v));
        }
        self.entries = e;
    }

    /// Records one event at `process`.
    pub fn tick(&mut self, process: K)
        requires
            old(self).count(process.key()) < u64::MAX,
        ensures
            forall|key: u64| #[trigger]
                final(self).count(key) == (if key == process.key() {
                    (old(self).count(key) + 1) as u64
                } else {
                    old(self).count(key)
                }),
    {
        let c = self.get(process);
        self.set(process, c + 1);
    }

    /// Pointwise maximum with `other`: the least upper bound of the two.
    pub fn merge(&mut self, other: &VectorClock<K>)
        ensures
            forall|key: u64| #[trigger]
                final(self).count(key) == max_count(old(self).count(key), other.count(key)),
    {
        proof {
            use_type_invariant(other);
        }
        let ghost before = self.count_map();
        let mut i: usize = 0;
        while i < other.entries.len()
            invariant
                0 <= i <= other.entries.len(),
                sorted_positive(other.entries@),
                forall|key: u64| #[trigger]
                    self.count(key) == (if exists|j: int|
                        0 <= j < i && (#[trigger] other.entries@[j]).0.key() == key {
                        max_count(before[key], other.count(key))
                    } else {
                        before[key]
                    }),
            decreases other.entries.len() - i,
        {
            let (k, c) = other.entries[i];
            proof {
                lemma_seq_count_at(other.entries@, i as int);
            }
            let cur = self.get(k);
            if c > cur {
                self.set(k, c);
            }
            proof {
                assert forall|key: u64| #[trigger]
                    self.count(key) == (if exists|j: int|
                        0 <= j < i + 1 && (#[trigger] other.entries@[j]).0.key() == key {
                        max_count(before[key], other.count(key))
                    } else {
                        before[key]
                    }) by {
                    if key == k.key() {
                        assert(other.entries@[i as int].0.key() == key);
                    } else if exists|j: int|
                        0 <= j < i + 1 && (#[trigger] other.entries@[j]).0.key() == key {
                        let j = choose|j: int|
                            0 <= j < i + 1 && (#[trigger] other.entries@[j]).0.key() == key;
                        assert(j < i);
                    }
                }
            }
            i = i + 1;
        }
        proof {
            assert forall|key: u64| #[trigger]
                self.count(key) == max_count(before[key], other.count(key)) by {
                if !exists|j: int|
                    0 <= j < other.entries.len() && (#[trigger] other.entries@[j]).0.key() == key {
                    lemma_seq_count_absent(other.entries@, key);
                }
            }
        }
    }

    /// Every counter, as a map over all keys.
    spec fn count_map(&self) -> Map<u64, u64> {
        Map::new(|key: u64| true, |key: u64| self.count(key))
    }

    /// Every process with a nonzero counter, with its counter, in
    /// increasing key order.
    pub fn entries(&self) -> (r: Vec<(K, u64)>)
        ensures
            r@ == self.pairs(),
            sorted_positive(r@),
            forall|i: int| 0 <= i < r.len() ==> (#[trigger] r@[i]).1 == self.count(r@[i].0.key()),
            forall|key: u64| #[trigger]
                self.count(key) > 0 ==> exists|i: int|
                    0 <= i < r.len() && (#[trigger] r@[i]).0.key() == key,
    {
        proof {
            use_type_invariant(self);
        }
        let r = self.copy_entries();
        proof {
            assert forall|i: int| 0 <= i < r.len() implies (#[trigger] r@[i]).1 == self.count(
                r@[i].0.key(),
            ) by {
                lemma_seq_count_at(self.entries@, i);
            }
            assert forall|key: u64| #[trigger] self.count(key) > 0 implies exists|i: int|
                0 <= i < r.len() && (#[trigger] r@[i]).0.key() == key by {
                lemma_seq_count_positive(self.entries@, key);
            }
        }
        r
    }

    fn copy_entries(&self) -> (r: Vec<(K, u64)>)
        ensures
            r@ == self.entries@,
    {
        let mut r: Vec<(K, u64)> = Vec::new();
        let mut i: usize = 0;
        while i < self.entries.len()
            invariant
                0 <= i <= self.entries.len(),
                r@ == self.entries@.take(i as int),
            decreases self.entries.len() - i,
        {
            r.push(self.entries[i]);
            i = i + 1;
            proof {
                assert(r@ =~= self.entries@.take(i as int));
            }
        }
        proof {
            assert(r@ =~= self.entries@);
        }
        r
    }

    /// An identical copy.
    pub fn duplicate(&self) -> (r: VectorClock<K>)
        ensures
            r.pairs() == self.pairs(),
            forall|key: u64| #[trigger] r.count(key) == self.count(key),
    {
        proof {
            use_type_invariant(self);
        }
        VectorClock { entries: self.copy_entries() }
    }

    /// How `self` relates to `other`: `Before` when dominated pointwise and
    /// different, `Equal` when equal, `After` when dominating, otherwise
    /// `Concurrent`.
    pub fn compare(&self, other: &VectorClock<K>) -> (r: Causality)
        ensures
            r == self.causality_spec(other),
    {
        proof {
            use_type_invariant(self);
            use_type_invariant(other);
        }
        let mut some_less = false;
        let mut some_greater = false;
        let mut i: usize = 0;
        while i < self.entries.len()
            invariant
                0 <= i <= self.entries.len(),
                sorted_positive(self.entries@),
                some_less ==> exists|key: u64| #[trigger] self.count(key) < other.count(key),
                some_greater ==> exists|key: u64| #[trigger] self.count(key) > other.count(key),
                forall|j: int|
                    0 <= j < i ==> (#[trigger] self.entries@[j]).1 < other.count(
                        self.entries@[j].0.key(),
                    ) ==> some_less,
                forall|j: int|
                    0 <= j < i ==> (#[trigger] self.entries@[j]).1 > other.count(
                        self.entries@[j].0.key(),
                    ) ==> some_greater,
            decreases self.entries.len() - i,
        {
            let (k, c) = self.entries[i];
            proof {
                lemma_seq_count_at(self.entries@, i as int);
            }
            let o = other.get(k);
            if c < o {
                assert(self.count(k.key()) < other.count(k.key()));
                some_less = true;
            } else if c > o {
                assert(self.count(k.key()) > other.count(k.key()));
                some_greater = true;
            }
            i = i + 1;
        }
        let mut i: usize = 0;
        while i < other.entries.len()
            invariant
                0 <= i <= other.entries.len(),
                sorted_positive(other.entries@),
                sorted_positive(self.entries@),
                some_less ==> exists|key: u64| #[trigger] self.count(key) < other.count(key),
                some_greater ==> exists|key: u64| #[trigger] self.count(key) > other.count(key),
                forall|j: int|
                    0 <= j < self.entries.len() ==> (#[trigger] self.entries@[j]).1 < other.count(
                        self.entries@[j].0.key(),
                    ) ==> some_less,
                forall|j: int|
                    0 <= j < self.entries.len() ==> (#[trigger] self.entries@[j]).1 > other.count(
                        self.entries@[j].0.key(),
                    ) ==> some_greater,
                forall|j: int|
                    0 <= j < i ==> self.count((#[trigger] other.entries@[j]).0.key())
                        < other.entries@[j].1 ==> some_less,
                forall|j: int|
                    0 <= j < i ==> self.count((#[trigger] other.entries@[j]).0.key())
                        > other.entries@[j].1 ==> some_greater,
            decreases other.entries.len() - i,
        {
            let (k, c) = other.entries[i];
            proof {
                lemma_seq_count_at(other.entries@, i as int);
            }
            let s = self.get(k);
            if s < c {
                assert(self.count(k.key()) < other.count(k.key()));
                some_less = true;
            } else if s > c {
                assert(self.count(k.key()) > other.count(k.key()));
                some_greater = true;
            }
            i = i + 1;
        }
        proof {
            if !some_less {
                assert forall|key: u64| #[trigger] other.count(key) <= self.count(key) by {
                    if self.count(key) < other.count(key) {
                        lemma_seq_count_positive(other.entries@, key);
                        let j = choose|j: int|
                            0 <= j < other.entries@.len() && (#[trigger] other.entries@[j]).0.key()
                                == key;
                        lemma_seq_count_at(other.entries@, j);
                    }
                }
            }
            if !some_greater {
                assert forall|key: u64| #[trigger] self.count(key) <= other.count(key) by {
                    if self.count(key) > other.count(key) {
                        lemma_seq_count_positive(self.entries@, key);
                        let j = choose|j: int|
                            0 <= j < self.entries@.len() && (#[trigger] self.entries@[j]).0.key()
                                == key;
                        lemma_seq_count_at(self.entries@, j);
                    }
                }
            }
        }
        if !some_less && !some_greater {
            Causality::Equal
        } else if some_less && !some_greater {
            Causality::Before
        } else if !some_less && some_greater {
            Causality::After
        } else {
            Causality::Concurrent
        }
    }

    pub fn happened_before(&self, other: &VectorClock<K>) -> (r: bool)
        ensures
            r == (self.causality_spec(other) == Causality::Before),
    {
        self.compare(other) == Causality::Before
    }

    pub fn concurrent_with(&self, other: &VectorClock<K>) -> (r: bool)
        ensures
            r == (self.causality_spec(other) == Causality::Concurrent),
    {
        self.compare(other) == Causality::Concurrent
    }
}

impl<K: ProcessKey> Clone for VectorClock<K> {
    fn clone(&self) -> (r: VectorClock<K>)
        ensures
            r.pairs() == self.pairs(),
            forall|key: u64| #[trigger] r.count(key) == self.count(key),
    {
        self.duplicate()
    }
}

/// Equal means the same counter for every process; explicit zeros, were
/// there any, would not matter.
impl<K: ProcessKey> PartialEq for VectorClock<K> {
    fn eq(&self, other: &VectorClock<K>) -> (r: bool) {
        self.compare(other) == Causality::Equal
    }
}

impl<K: ProcessKey> PartialEqSpecImpl for VectorClock<K> {
    open spec fn obeys_eq_spec() -> bool {
        true
    }

    open spec fn eq_spec(&self, other: &VectorClock<K>) -> bool {
        self.causality_spec(other) == Causality::Equal
    }
}

impl<K: ProcessKey> Eq for VectorClock<K> {

}

/// The causal partial order: `None` for concurrent timestamps.
impl<K: ProcessKey> PartialOrd for VectorClock<K> {
    fn partial_cmp(&self, other: &VectorClock<K>) -> (r: Option<Ordering>) {
        match self.compare(other) {
            Causality::Before => Some(Ordering::Less),
            Causality::After => Some(Ordering::Greater),
            Causality::Equal => Some(Ordering::Equal),
            Causality::Concurrent => None,
        }
    }
}

impl<K: ProcessKey> PartialOrdSpecImpl for VectorClock<K> {
    open spec fn obeys_partial_cmp_spec() -> bool {
        true
    }

    open spec fn partial_cmp_spec(&self, other: &VectorClock<K>) -> Option<Ordering> {
        match self.causality_spec(other) {
            Causality::Before => Some(Ordering::Less),
            Causality::After => Some(Ordering::Greater),
            Causality::Equal => Some(Ordering::Equal),
            Causality::Concurrent => None,
        }
    }
}

/// `merge` is commutative: merging `b` into `a` and `a` into `b` give equal
/// clocks.
pub proof fn law_merge_commutative<K: ProcessKey>(
    a: VectorClock<K>,
    b: VectorClock<K>,
    ab: VectorClock<K>,
    ba: VectorClock<K>,
)
    requires
        forall|key: u64| #[trigger] ab.count(key) == max_count(a.count(key), b.count(key)),
        forall|key: u64| #[trigger] ba.count(key) == max_count(b.count(key), a.count(key)),
    ensures
        ab.causality_spec(&ba) == Causality::Equal,
{
}

/// `merge` is associative.
pub proof fn law_merge_associative<K: ProcessKey>(
    a: VectorClock<K>,
    b: VectorClock<K>,
    c: VectorClock<K>,
    ab: VectorClock<K>,
    ab_c: VectorClock<K>,
    bc: VectorClock<K>,
    a_bc: VectorClock<K>,
)
    requires
        forall|key: u64| #[trigger] ab.count(key) == max_count(a.count(key), b.count(key)),
        forall|key: u64| #[trigger] ab_c.count(key) == max_count(ab.count(key), c.count(key)),
        forall|key: u64| #[trigger] bc.count(key) == max_count(b.count(key), c.count(key)),
        forall|key: u64| #[trigger] a_bc.count(key) == max_count(a.count(key), bc.count(key)),
    ensures
        ab_c.causality_spec(&a_bc) == Causality::Equal,
{
}

/// `merge` is idempotent: merging a clock with itself changes nothing.
pub proof fn law_merge_idempotent<K: ProcessKey>(a: VectorClock<K>, aa: VectorClock<K>)
    requires
        forall|key: u64| #[trigger] aa.count(key) == max_count(a.count(key), a.count(key)),
    ensures
        aa.causality_spec(&a) == Causality::Equal,
{
}

/// `merge` gives the least upper bound: it dominates both inputs, and is
/// dominated by every common upper bound of them.
pub proof fn law_merge_is_least_upper_bound<K: ProcessKey>(
    a: VectorClock<K>,
    b: VectorClock<K>,
    m: VectorClock<K>,
    upper: VectorClock<K>,
)
    requires
        forall|key: u64| #[trigger] m.count(key) == max_count(a.count(key), b.count(key)),
    ensures
        a.dominated_by(&m),
        b.dominated_by(&m),
        a.dominated_by(&upper) && b.dominated_by(&upper) ==> m.dominated_by(&upper),
{
    assert forall|key: u64| #[trigger] a.count(key) <= m.count(key) by {
    }
    assert forall|key: u64| #[trigger] b.count(key) <= m.count(key) by {
    }
    if a.dominated_by(&upper) && b.dominated_by(&upper) {
        assert forall|key: u64| #[trigger] m.count(key) <= upper.count(key) by {
            assert(a.count(key) <= upper.count(key));
            assert(b.count(key) <= upper.count(key));
        }
    }
}

/// `compare` is antisymmetric: swapping the arguments mirrors the answer.
pub proof fn law_compare_antisymmetric<K: ProcessKey>(a: VectorClock<K>, b: VectorClock<K>)
    ensures
        b.causality_spec(&a) == (match a.causality_spec(&b) {
            Causality::Before => Causality::After,
            Causality::After => Causality::Before,
            other => other,
        }),
{
}

/// Happened-before is transitive.
pub proof fn law_happened_before_transitive<K: ProcessKey>(
    a: VectorClock<K>,
    b: VectorClock<K>,
    c: VectorClock<K>,
)
    requires
        a.causality_spec(&b) == Causality::Before,
        b.causality_spec(&c) == Causality::Before,
    ensures
        a.causality_spec(&c) == Causality::Before,
{
    assert forall|key: u64| #[trigger] a.count(key) <= c.count(key) by {
        assert(a.count(key) <= b.count(key));
        assert(b.count(key) <= c.count(key));
    }
    let key = choose|key: u64| !(#[trigger] b.count(key) <= a.count(key));
    assert(c.count(key) >= b.count(key));
}

/// The larger of two counters.
pub open spec fn max_count(a: u64, b: u64) -> u64 {
    if a >= b {
        a
    } else {
        b
    }
}

} // verus!
