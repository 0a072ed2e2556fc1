//! Memory regions named by capability, never by an address a process picks.
//! A region is an ordinary capability object: `READ` may read its bytes,
//! `WRITE` may write them, `DESTROY` may free it, so holding `DESTROY` is
//! what owning a region means. Ownership moves only through
//! `Grant::Move`, which reissues the region's capability: every copy the
//! old owner kept then fails every access check here.
use std::collections::HashMap;
use vstd::prelude::*;

use crate::capability::{CapError, Capability, Kernel, ObjectId};
use crate::rights::Rights;

verus! {


broadcast use {vstd::std_specs::hash::group_hash_axioms, crate::rights::group_rights_bits};

#[derive(Debug, Clone, Copy, PartialEq, Eq, Structural)]
pub enum MemoryError {
    /// The object is not a region this registry allocated (or it was destroyed).
    UnknownRegion(ObjectId),
    /// The access range runs outside the region.
    OutOfBounds { object: ObjectId, offset: usize, len: usize, size: usize },
    /// The capability was refused.
    Capability(CapError),
}

/// Every region's bytes, keyed by the region object's id. The kernel only
/// tracks authority, never payload data.
#[derive(Debug)]
pub struct RegionRegistry {
    regions: HashMap<u64, Vec<u8>>,
    /// The id of every allocated region, once each.
    ids: Vec<u64>,
}

/// What an access check answers: authority first, then that the object is
/// a region, then the range; so a caller without authority learns nothing
/// of a region's size.
pub open spec fn access_check(
    k: Kernel,
    regions: Map<u64, Seq<u8>>,
    cap: Capability,
    required: Rights,
    offset: usize,
    len: usize,
) -> Result<(), MemoryError> {
    let id = cap.object().id();
    match k.check_result(cap, required) {
        Err(e) => Err(MemoryError::Capability(e)),
        Ok(_) => if !regions.contains_key(id) {
            Err(MemoryError::UnknownRegion(cap.object()))
        } else if offset + len > regions[id].len() {
            Err(
                MemoryError::OutOfBounds {
                    object: cap.object(),
                    offset,
                    len,
                    size: regions[id].len() as usize,
                },
            )
        } else {
            Ok(())
        },
    }
}

impl RegionRegistry {
    /// Each region's bytes, keyed by object id.
    pub closed spec fn regions(&self) -> Map<u64, Seq<u8>> {
        Map::new(|k: u64| self.regions@.contains_key(k), |k: u64| self.regions@[k]@)
    }

    /// `ids` lists exactly the allocated regions, once each.
    pub closed spec fn wf(&self) -> bool {
        &&& self.ids@.no_duplicates()
        &&& forall|x: u64| #[trigger] self.ids@.contains(x) <==> self.regions@.contains_key(x)
    }

    /// Finitely many regions are allocated: exactly those `ids` lists.
    pub proof fn lemma_regions_finite(&self)
        requires
            self.wf(),
        ensures
            self.regions().dom().finite(),
    {
        assert(self.regions().dom() =~= self.ids@.to_set());
    }

    pub fn new() -> (r: RegionRegistry)
        ensures
            r.wf(),
            r.regions() == Map::<u64, Seq<u8>>::empty(),
    {
        let r = RegionRegistry { regions: HashMap::new(), ids: Vec::new() };

        proof {
            assert(r.regions() =~= Map::<u64, Seq<u8>>::empty());
        }
        r
    }

    /// Allocates a zero-filled region of `size` bytes and mints its first,
    /// owning capability (`READ|WRITE|GRANT|DESTROY`).
    pub fn new_region(&mut self, kernel: &mut Kernel, size: usize) -> (cap: Capability)
        requires
            old(self).wf(),
            old(kernel).wf(),
            old(kernel).next_id() < u64::MAX,
        ensures
            final(self).wf(),
            final(kernel).wf(),
            cap.object().id() == old(kernel).next_id(),
            !old(kernel).epochs().contains_key(cap.object().id()),
            cap.rights() == Rights::from_bits(27),
            cap.epoch() == 0,
            final(kernel).next_id() == old(kernel).next_id() + 1,
            final(kernel).epochs() == old(kernel).epochs().insert(cap.object().id(), 0),
            final(self).regions() == old(self).regions().insert(
                cap.object().id(),
                Seq::new(size as nat, |i: int| 0u8),
            ),
    {
        let rights = Rights::READ() | Rights::WRITE() | Rights::GRANT() | Rights::DESTROY();
        proof {
            assert(1u32 | 2u32 | 8u32 | 16u32 == 27u32) by (bit_vector);
            assert(Rights::spec_READ().bits() == 1 && Rights::spec_WRITE().bits() == 2);
            assert(Rights::spec_GRANT().bits() == 8 && Rights::spec_DESTROY().bits() == 16);
            assert(rights.bits() == 27);
            assert(Rights::from_bits(rights.bits()) == rights);
        }
        let cap = kernel.new_object(rights);
        let mut bytes: Vec<u8> = Vec::new();
        let mut i: usize = 0;
        while i < size
            invariant
                0 <= i <= size,
                bytes@ == Seq::new(i as nat, |j: int| 0u8),
            decreases size - i,
        {
            bytes.push(0);
            i = i + 1;
            proof {
                assert(bytes@ =~= Seq::new(i as nat, |j: int| 0u8));
            }
        }
        let id = cap.object().raw();
        if !self.regions.contains_key(&id) {
            self.ids.push(id);
        }
        self.regions.insert(id, bytes);
        proof {
            assert forall|x: u64| #[trigger] self.ids@.contains(x) <==> self.regions@.contains_key(x) by {
                if old(self).ids@.contains(x) {
                    let j = choose|j: int| 0 <= j < old(self).ids@.len() && old(self).ids@[j] == x;
                    assert(self.ids@[j] == x);
                }
                if self.ids@.contains(x) && x != id {
                    let j = choose|j: int| 0 <= j < self.ids@.len() && self.ids@[j] == x;
                    assert(old(self).ids@[j] == x);
                }
                if x == id && !old(self).regions@.contains_key(id) {
                    assert(self.ids@[self.ids@.len() - 1] == id);
                }
            }
            assert forall|a: int, b: int| 0 <= a < b < self.ids@.len() implies self.ids@[a] != self.ids@[b] by {
                if b == old(self).ids@.len() {
                    assert(old(self).ids@.contains(self.ids@[a]));
                }
            }
            assert(self.regions() =~= old(self).regions().insert(
                cap.object().id(),
                Seq::new(size as nat, |i: int| 0u8),
            ));
        }
        cap
    }

    /// Validates `cap` for `required`, then that the region exists, then the
    /// access range, in that order; answers the range's end.
    fn checked_range(
        &self,
        kernel: &Kernel,
        cap: &Capability,
        required: Rights,
        offset: usize,
        len: usize,
    ) -> (r: Result<usize, MemoryError>)
        ensures
            r is Ok <==> access_check(*kernel, self.regions(), *cap, required, offset, len) is Ok,
            r is Err ==> r == Err::<usize, MemoryError>(
                access_check(*kernel, self.regions(), *cap, required, offset, len)->Err_0,
            ),
            r is Ok ==> r->Ok_0 == offset + len,
    {
        match kernel.check(cap, required) {
            Ok(()) => {},
            Err(e) => {
                return Err(MemoryError::Capability(e));
            },
        }
        let object = cap.object();
        let size = match self.regions.get(&object.raw()) {
            Some(bytes) => bytes.len(),
            None => {
                return Err(MemoryError::UnknownRegion(object));
            },
        };
        match offset.checked_add(len) {
            Some(end) => {
                if end <= size {
                    return Ok(end);
                }
            },
            None => {},
        }
        Err(MemoryError::OutOfBounds { object, offset, len, size })
    }

    /// Reads `len` bytes starting at `offset`. `cap` must grant `READ`.
    pub fn read(&self, kernel: &Kernel, cap: &Capability, offset: usize, len: usize) -> (r: Result<
        Vec<u8>,
        MemoryError,
    >)
        ensures
            r is Ok <==> access_check(*kernel, self.regions(), *cap, Rights::READ(), offset, len) is Ok,
            r is Err ==> r == Err::<Vec<u8>, MemoryError>(
                access_check(*kernel, self.regions(), *cap, Rights::READ(), offset, len)->Err_0,
            ),
            r is Ok ==> r->Ok_0@ == self.regions()[cap.object().id()].subrange(
                offset as int,
                offset + len,
            ),
    {
        let end = self.checked_range(kernel, cap, Rights::READ(), offset, len)?;
        let bytes = self.regions.get(&cap.object().raw()).unwrap();
        let mut out: Vec<u8> = Vec::new();
        let mut i: usize = offset;
        while i < end
            invariant
                offset <= i <= end,
                end <= bytes.len(),
                out@ == bytes@.subrange(offset as int, i as int),
            decreases end - i,
        {
            out.push(bytes[i]);
            i = i + 1;
            proof {
                assert(out@ =~= bytes@.subrange(offset as int, i as int));
            }
        }
        Ok(out)
    }

    /// Writes `data` starting at `offset`. `cap` must grant `WRITE`. The
    /// whole range is validated first: a write that would run past the end
    /// changes no byte at all.
    pub fn write(&mut self, kernel: &Kernel, cap: &Capability, offset: usize, data: &[u8]) -> (r:
        Result<(), MemoryError>)
        requires
            old(self).wf(),
        ensures
            final(self).wf(),
            r == access_check(*kernel, old(self).regions(), *cap, Rights::WRITE(), offset, data@.len() as usize),
            r is Err ==> final(self).regions() == old(self).regions(),
            r is Ok ==> final(self).regions() == old(self).regions().insert(
                cap.object().id(),
                written(old(self).regions()[cap.object().id()], offset as int, data@),
            ),
    {
        let end = match self.checked_range(kernel, cap, Rights::WRITE(), offset, data.len()) {
            Ok(end) => end,
            Err(e) => {
                return Err(e);
            },
        };
        let id = cap.object().raw();
        let mut bytes = self.regions.remove(&id).unwrap();
        let ghost b0 = bytes@;
        let mut i: usize = 0;
        while i < data.len()
            invariant
                0 <= i <= data.len(),
                end == offset + data.len(),
                end <= bytes.len(),
                bytes.len() == b0.len(),
                bytes@ == written(b0, offset as int, data@.take(i as int)),
            decreases data.len() - i,
        {
            bytes[offset + i] = data[i];
            i = i + 1;
            proof {
                assert(bytes@ =~= written(b0, offset as int, data@.take(i as int)));
            }
        }
        proof {
            assert(data@.take(data.len() as int) == data@);
        }
        self.regions.insert(id, bytes);
        proof {
            assert(self.regions@.dom() =~= old(self).regions@.dom());
            assert(self.regions() =~= old(self).regions().insert(
                cap.object().id(),
                written(old(self).regions()[cap.object().id()], offset as int, data@),
            ));
        }
        Ok(())
    }

    /// The region's size in bytes. Needs a live capability but no particular
    /// rights.
    pub fn size(&self, kernel: &Kernel, cap: &Capability) -> (r: Result<usize, MemoryError>)
        ensures
            r is Ok <==> access_check(*kernel, self.regions(), *cap, Rights::NONE(), 0, 0) is Ok,
            r is Err ==> r == Err::<usize, MemoryError>(
                access_check(*kernel, self.regions(), *cap, Rights::NONE(), 0, 0)->Err_0,
            ),
            r is Ok ==> r->Ok_0 == self.regions()[cap.object().id()].len(),
    {
        self.checked_range(kernel, cap, Rights::NONE(), 0, 0)?;
        Ok(self.regions.get(&cap.object().raw()).unwrap().len())
    }

    /// Hands the region's bytes to `f` and answers its result. `cap` must
    /// grant `READ`; one check for the whole call.
    pub fn inspect<R, F: Fn(&[u8]) -> R>(&self, kernel: &Kernel, cap: &Capability, f: F) -> (r:
        Result<R, MemoryError>)
        requires
            forall|bytes: &[u8]| #[trigger] f.requires((bytes,)),
        ensures
            r is Ok <==> access_check(*kernel, self.regions(), *cap, Rights::READ(), 0, 0) is Ok,
            r is Err ==> r->Err_0 == access_check(*kernel, self.regions(), *cap, Rights::READ(), 0, 0)->Err_0,
            r is Ok ==> exists|bytes: &[u8]| bytes@ == self.regions()[cap.object().id()] && f.ensures((bytes,), r->Ok_0),
    {
        match self.checked_range(kernel, cap, Rights::READ(), 0, 0) {
            Ok(_) => {},
            Err(e) => {
                return Err(e);
            },
        }
        let bytes = self.regions.get(&cap.object().raw()).unwrap();
        Ok(f(bytes.as_slice()))
    }

    /// Frees the region: destroys the kernel object (requires `DESTROY`) and
    /// drops its bytes. Every capability for it then fails with
    /// `UnknownObject`.
    pub fn destroy_region(&mut self, kernel: &mut Kernel, cap: &Capability) -> (r: Result<
        (),
        MemoryError,
    >)
        requires
            old(self).wf(),
            old(kernel).wf(),
        ensures
            final(self).wf(),
            final(kernel).wf(),
            r == (match old(kernel).check_result(*cap, Rights::DESTROY()) {
                Err(e) => Err(MemoryError::Capability(e)),
                Ok(_) => if !old(self).regions().contains_key(cap.object().id()) {
                    Err(MemoryError::UnknownRegion(cap.object()))
                } else {
                    Ok(())
                },
            }),
            r is Err ==> *final(kernel) == *old(kernel) && final(self).regions() == old(self).regions(),
            r is Ok ==> final(kernel).epochs() == old(kernel).epochs().remove(cap.object().id())
                && final(kernel).next_id() == old(kernel).next_id()
                && final(self).regions() == old(self).regions().remove(cap.object().id())
                && final(self).regions().len() == old(self).regions().len() - 1,
            final(self).regions().dom().finite(),
    {
        proof {
            self.lemma_regions_finite();
        }
        match kernel.check(cap, Rights::DESTROY()) {
            Ok(()) => {},
            Err(e) => {
                return Err(MemoryError::Capability(e));
            },
        }
        if !self.regions.contains_key(&cap.object().raw()) {
            return Err(MemoryError::UnknownRegion(cap.object()));
        }
        match kernel.destroy_object(cap) {
            Ok(()) => {},
            Err(e) => {
                return Err(MemoryError::Capability(e));
            },
        }
        let id = cap.object().raw();
        self.regions.remove(&id);
        self.forget_id(id);
        proof {
            assert(self.regions() =~= old(self).regions().remove(cap.object().id()));
            self.lemma_regions_finite();
        }
        Ok(())
    }

    /// Drops the bytes of every region whose kernel object no longer exists
    /// (destroyed with `Kernel::destroy_object` rather than
    /// `destroy_region`); such bytes were already unreachable. Answers how
    /// many regions were reclaimed.
    pub fn reclaim(&mut self, kernel: &Kernel) -> (n: usize)
        requires
            old(self).wf(),
        ensures
            final(self).wf(),
            final(self).regions() == old(self).regions().restrict(kernel.epochs().dom()),
            n == old(self).regions().len() - final(self).regions().len(),
    {
        let before = self.regions.len();
        let ghost r0 = self.regions@;
        let ghost ids0 = self.ids@;
        let mut kept: Vec<u64> = Vec::new();
        let mut i: usize = 0;
        while i < self.ids.len()
            invariant
                0 <= i <= self.ids.len(),
                self.ids@ == ids0,
                ids0.no_duplicates(),
                forall|x: u64| #[trigger] ids0.contains(x) <==> r0.contains_key(x),
                kept@.no_duplicates(),
                forall|x: u64| #[trigger] kept@.contains(x) <==> (ids0.take(i as int).contains(x) && kernel.epochs().contains_key(x)),
                self.regions@ == r0.remove_keys(Set::new(|x: u64| ids0.take(i as int).contains(x) && !kernel.epochs().contains_key(x))),
            decreases self.ids.len() - i,
        {
            let id = self.ids[i];
            let ghost t0 = ids0.take(i as int);
            let ghost t1 = ids0.take(i + 1);
            proof {
                assert(t1 == t0.push(id));
                assert(!t0.contains(id)) by {
                    if t0.contains(id) {
                        let j = choose|j: int| 0 <= j < t0.len() && t0[j] == id;
                        assert(ids0[j] == ids0[i as int]);
                    }
                }
                assert forall|x: u64| #[trigger] t1.contains(x) <==> (t0.contains(x) || x == id) by {
                    if t1.contains(x) {
                        let j = choose|j: int| 0 <= j < t1.len() && t1[j] == x;
                        if j < i {
                            assert(t0[j] == x);
                        }
                    }
                    if t0.contains(x) {
                        let j = choose|j: int| 0 <= j < t0.len() && t0[j] == x;
                        assert(t1[j] == x);
                    }
                    if x == id {
                        assert(t1[i as int] == id);
                    }
                }
            }
            let ghost k0 = kept@;
            if kernel.object_exists(ObjectId::from_raw(id)) {
                kept.push(id);
                proof {
                    assert forall|x: u64| #[trigger] kept@.contains(x) <==> (k0.contains(x) || x == id) by {
                        if kept@.contains(x) {
                            let j = choose|j: int| 0 <= j < kept@.len() && kept@[j] == x;
                            if j < k0.len() {
                                assert(k0[j] == x);
                            }
                        }
                        if k0.contains(x) {
                            let j = choose|j: int| 0 <= j < k0.len() && k0[j] == x;
                            assert(kept@[j] == x);
                        }
                        if x == id {
                            assert(kept@[k0.len() as int] == id);
                        }
                    }
                    assert forall|a: int, b: int| 0 <= a < b < kept@.len() implies kept@[a] != kept@[b] by {
                        if b == k0.len() {
                            assert(k0.contains(kept@[a]));
                        }
                    }
                }
            } else {
                self.regions.remove(&id);
            }
            i = i + 1;
            proof {
                assert(self.regions@ =~= r0.remove_keys(Set::new(|x: u64| ids0.take(i as int).contains(x) && !kernel.epochs().contains_key(x))));
            }
        }
        self.ids = kept;
        proof {
            assert(ids0.take(ids0.len() as int) == ids0);
            assert(self.regions() =~= old(self).regions().restrict(kernel.epochs().dom()));
            vstd::set_lib::lemma_len_subset(self.regions@.dom(), r0.dom());
            assert(old(self).regions().dom() =~= r0.dom());
            assert(self.regions().dom() =~= self.regions@.dom());
        }
        before - self.regions.len()
    }

    /// Takes `id` out of the id list.
    fn forget_id(&mut self, id: u64)
        requires
            old(self).ids@.no_duplicates(),
            forall|x: u64| #[trigger] old(self).ids@.contains(x) <==> (old(self).regions@.contains_key(x) || x == id),
            !old(self).regions@.contains_key(id),
        ensures
            final(self).wf(),
            final(self).regions@ == old(self).regions@,
    {
        let mut i: usize = 0;
        while i < self.ids.len() && self.ids[i] != id
            invariant
                0 <= i <= self.ids.len(),
                self.ids@ == old(self).ids@,
                forall|j: int| 0 <= j < i ==> self.ids@[j] != id,
            decreases self.ids.len() - i,
        {
            i = i + 1;
        }
        let ghost before = self.ids@;
        if i < self.ids.len() {
            self.ids.remove(i);
            proof {
                assert forall|x: u64| #[trigger] self.ids@.contains(x) <==> (before.contains(x) && x != id) by {
                    if before.contains(x) && x != id {
                        let j = choose|j: int| 0 <= j < before.len() && before[j] == x;
                        if j < i {
                            assert(self.ids@[j] == x);
                        } else {
                            assert(self.ids@[j - 1] == x);
                        }
                    }
                    if self.ids@.contains(x) {
                        let j = choose|j: int| 0 <= j < self.ids@.len() && self.ids@[j] == x;
                        if j < i {
                            assert(before[j] == x);
                        } else {
                            assert(before[j + 1] == x);
                            assert(j + 1 != i);
                        }
                    }
                }
                assert forall|a: int, b: int| 0 <= a < b < self.ids@.len() implies self.ids@[a] != self.ids@[b] by {
                    let a2 = if a < i { a } else { a + 1 };
                    let b2 = if b < i { b } else { b + 1 };
                    assert(self.ids@[a] == before[a2]);
                    assert(self.ids@[b] == before[b2]);
                }
            }
        } else {
            proof {
                assert(!before.contains(id));
            }
        }
    }

    /// How many regions are allocated.
    pub fn region_count(&self) -> (n: usize)
        ensures
            n == self.regions().len(),
    {
        proof {
            assert(self.regions().dom() =~= self.regions@.dom());
        }
        self.regions.len()
    }
}

/// `bytes` with `data` written from `offset` on.
pub open spec fn written(bytes: Seq<u8>, offset: int, data: Seq<u8>) -> Seq<u8> {
    Seq::new(
        bytes.len(),
        |i: int|
            if offset <= i < offset + data.len() {
                data[i - offset]
            } else {
                bytes[i]
            },
    )
}

/// A read gives back what a write wrote: after a successful write of
/// `data` at `offset` (regions `before` to `after`), reading the same range
/// yields `data`, and every byte outside it is unchanged.
pub proof fn law_read_after_write(
    before: Map<u64, Seq<u8>>,
    after: Map<u64, Seq<u8>>,
    id: u64,
    offset: int,
    data: Seq<u8>,
)
    requires
        before.contains_key(id),
        0 <= offset,
        offset + data.len() <= before[id].len(),
        after == before.insert(id, written(before[id], offset, data)),
    ensures
        after[id].subrange(offset, offset + data.len()) == data,
        after[id].len() == before[id].len(),
        forall|i: int|
            0 <= i < before[id].len() && !(offset <= i < offset + data.len()) ==> after[id][i]
                == before[id][i],
        forall|other: u64| other != id && before.contains_key(other) ==> after[other] == before[other],
{
    assert(after[id].subrange(offset, offset + data.len()) =~= data);
}

/// A capability that is no longer live (revoked by a move or a revoke)
/// cannot touch a region in any way: every access fails with `Revoked`,
/// whatever rights, offset or length it asks for.
pub proof fn law_stale_capability_cannot_access(
    k: Kernel,
    regions: Map<u64, Seq<u8>>,
    cap: Capability,
    required: Rights,
    offset: usize,
    len: usize,
)
    requires
        k.epochs().contains_key(cap.object().id()),
        !k.is_live(cap),
    ensures
        access_check(k, regions, cap, required, offset, len) == Err::<(), MemoryError>(
            MemoryError::Capability(CapError::Revoked(cap.object())),
        ),
{
}

/// Authority is checked before bounds: a capability without the required
/// rights is refused for rights whatever the range, so the error tells it
/// nothing about the region's size.
pub proof fn law_authority_before_bounds(
    k: Kernel,
    regions: Map<u64, Seq<u8>>,
    cap: Capability,
    required: Rights,
    offset: usize,
    len: usize,
)
    requires
        k.check_result(cap, required) is Err,
    ensures
        access_check(k, regions, cap, required, offset, len) == Err::<(), MemoryError>(
            MemoryError::Capability(k.check_result(cap, required)->Err_0),
        ),
{
}

} // verus!
