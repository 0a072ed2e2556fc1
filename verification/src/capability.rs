//! Unforgeable, revocable, attenuation-only capabilities over opaque
//! object references: no paths, no ambient authority.
use std::collections::HashMap;
use vstd::prelude::*;

use crate::rights::{bits_contain, Rights};

verus! {


broadcast use {vstd::std_specs::hash::group_hash_axioms, crate::rights::group_rights_bits};

/// An opaque reference to a kernel object: never a path, only ever
/// compared with another `ObjectId`. Drawn from a monotonic counter.
#[derive(Debug, Clone, Copy, PartialEq, Eq, Structural, Hash, PartialOrd, Ord)]
pub struct ObjectId(u64);

impl ObjectId {
    /// The counter value behind this reference.
    pub closed spec fn id(self) -> u64 {
        self.0
    }

    /// Two references are the same exactly when their counter values are.
    pub broadcast proof fn lemma_id_determines(a: ObjectId, b: ObjectId)
        ensures
            #[trigger] a.id() == #[trigger] b.id() ==> a == b,
    {
    }

    pub(crate) fn from_raw(id: u64) -> (r: ObjectId)
        ensures
            r.id() == id,
    {
        ObjectId(id)
    }

    /// Different objects have different ids.
    pub proof fn lemma_id_injective(self, other: ObjectId)
        ensures
            self != other ==> self.id() != other.id(),
    {
    }

    pub(crate) fn raw(&self) -> (r: u64)
        ensures
            r == self.id(),
    {
        self.0
    }
}

/// An unforgeable, possibly attenuated handle to an object plus the
/// rights it grants. Every field is private and there is no public
/// constructor: the only sources of a `Capability` are
/// `Kernel::new_object`, `Kernel::derive` and `Kernel::reissue`.
#[derive(Debug, Clone, Copy, PartialEq, Eq, Structural, Hash)]
pub struct Capability {
    object: ObjectId,
    rights: Rights,
    epoch: u64,
}

impl Capability {
    pub closed spec fn spec_object(&self) -> ObjectId {
        self.object
    }

    pub closed spec fn spec_rights(&self) -> Rights {
        self.rights
    }

    /// The epoch of the object this capability was minted at.
    pub closed spec fn epoch(&self) -> u64 {
        self.epoch
    }

    /// A ghost capability with the given fields: what proofs use to ask
    /// how the kernel treats any capability of that shape. No executable
    /// code can hold one.
    pub proof fn ghost_of(object: ObjectId, rights: Rights, epoch: u64) -> (c: Capability)
        ensures
            c.object() == object,
            c.rights() == rights,
            c.epoch() == epoch,
    {
        Capability { object, rights, epoch }
    }

    #[verifier::when_used_as_spec(spec_object)]
    pub fn object(&self) -> (r: ObjectId)
        ensures
            r == self.object(),
    {
        self.object
    }

    #[verifier::when_used_as_spec(spec_rights)]
    pub fn rights(&self) -> (r: Rights)
        ensures
            r == self.rights(),
    {
        self.rights
    }
}

#[derive(Debug, Clone, Copy, PartialEq, Eq, Structural)]
pub enum CapError {
    /// The object does not exist (destroyed, or never allocated by this kernel).
    UnknownObject(ObjectId),
    /// The capability was issued for an earlier epoch of its object.
    Revoked(ObjectId),
    /// The capability lacks required rights.
    InsufficientRights { object: ObjectId, held: Rights, required: Rights },
    /// Derivation asked for rights the parent does not hold.
    CannotAmplify { object: ObjectId, held: Rights, requested: Rights },
}

/// The capability table: every object this kernel has allocated and not
/// destroyed, with the epoch each is currently on. Revoking an object
/// bumps its epoch; every capability minted before the bump then fails
/// `check`, without the kernel tracking who holds what.
#[derive(Debug)]
pub struct Kernel {
    next_id: u64,
    epochs: HashMap<u64, u64>,
}

/// What `Kernel::check` answers for `cap` against a table of epochs.
pub open spec fn check_against(epochs: Map<u64, u64>, cap: Capability, required: Rights) -> Result<
    (),
    CapError,
> {
    let id = cap.object().id();
    if !epochs.contains_key(id) {
        Err(CapError::UnknownObject(cap.object()))
    } else if epochs[id] != cap.epoch() {
        Err(CapError::Revoked(cap.object()))
    } else if !bits_contain(cap.rights().bits(), required.bits()) {
        Err(CapError::InsufficientRights { object: cap.object(), held: cap.rights(), required })
    } else {
        Ok(())
    }
}

impl Kernel {
    /// Current epoch of every existing object, keyed by object id.
    pub closed spec fn epochs(&self) -> Map<u64, u64> {
        self.epochs@
    }

    /// The id the next allocated object will get.
    pub closed spec fn next_id(&self) -> u64 {
        self.next_id
    }

    /// Every existing object was allocated before the counter's current value.
    pub closed spec fn wf(&self) -> bool {
        forall|k: u64| #[trigger] self.epochs@.contains_key(k) ==> k < self.next_id
    }

    /// The answer `check(cap, required)` gives on this kernel.
    pub open spec fn check_result(&self, cap: Capability, required: Rights) -> Result<(), CapError> {
        check_against(self.epochs(), cap, required)
    }

    /// `cap` is live: its object exists and is still on `cap`'s epoch.
    pub open spec fn is_live(&self, cap: Capability) -> bool {
        self.epochs().contains_key(cap.object().id()) && self.epochs()[cap.object().id()]
            == cap.epoch()
    }

    /// The object's epoch can still be bumped without overflowing.
    pub open spec fn can_bump(&self, object: ObjectId) -> bool {
        self.epochs().contains_key(object.id()) ==> self.epochs()[object.id()] < u64::MAX
    }

    /// A kernel with no objects.
    pub fn new() -> (k: Kernel)
        ensures
            k.wf(),
            k.epochs() == Map::<u64, u64>::empty(),
            k.next_id() == 0,
    {
        Kernel { next_id: 0, epochs: HashMap::new() }
    }

    /// Allocates a fresh object and mints its first capability, with
    /// whatever rights the caller asks for, at epoch 0.
    pub fn new_object(&mut self, rights: Rights) -> (cap: Capability)
        requires
            old(self).wf(),
            old(self).next_id() < u64::MAX,
        ensures
            final(self).wf(),
            cap.object().id() == old(self).next_id(),
            !old(self).epochs().contains_key(cap.object().id()),
            cap.rights() == rights,
            cap.epoch() == 0,
            final(self).next_id() == old(self).next_id() + 1,
            final(self).epochs() == old(self).epochs().insert(cap.object().id(), 0),
    {
        let object = ObjectId(self.next_id);
        self.next_id = self.next_id + 1;
        self.epochs.insert(object.0, 0);
        Capability { object, rights, epoch: 0 }
    }

    /// Validates that `cap` is live and grants at least `required`.
    pub fn check(&self, cap: &Capability, required: Rights) -> (r: Result<(), CapError>)
        ensures
            r == self.check_result(*cap, required),
    {
        let current_epoch = match self.epochs.get(&cap.object.0) {
            Some(e) => *e,
            None => {
                return Err(CapError::UnknownObject(cap.object));
            },
        };
        if current_epoch != cap.epoch {
            return Err(CapError::Revoked(cap.object));
        }
        if !cap.rights.contains(required) {
            return Err(CapError::InsufficientRights { object: cap.object, held: cap.rights, required });
        }
        Ok(())
    }

    /// True while the object has not been destroyed. Needs no authority.
    pub fn object_exists(&self, object: ObjectId) -> (r: bool)
        ensures
            r == self.epochs().contains_key(object.id()),
    {
        self.epochs.contains_key(&object.0)
    }

    /// The object's current epoch, while it exists.
    pub fn epoch_of(&self, object: ObjectId) -> (r: Option<u64>)
        ensures
            r == (if self.epochs().contains_key(object.id()) {
                Some(self.epochs()[object.id()])
            } else {
                None::<u64>
            }),
    {
        match self.epochs.get(&object.0) {
            Some(e) => Some(*e),
            None => None,
        }
    }

    /// The id the next allocated object will get.
    pub fn next_object_id(&self) -> (r: u64)
        ensures
            r == self.next_id(),
    {
        self.next_id
    }

    /// Bumps the object's epoch, invalidating every capability minted
    /// before this call, `cap` included. `cap` must be live and hold
    /// `DESTROY`.
    pub fn revoke(&mut self, cap: &Capability) -> (r: Result<(), CapError>)
        requires
            old(self).wf(),
            old(self).can_bump(cap.object()),
        ensures
            final(self).wf(),
            r == old(self).check_result(*cap, Rights::DESTROY()),
            final(self).next_id() == old(self).next_id(),
            r is Ok ==> final(self).epochs() == old(self).epochs().insert(
                cap.object().id(),
                (cap.epoch() + 1) as u64,
            ),
            r is Err ==> final(self).epochs() == old(self).epochs(),
    {
        self.check(cap, Rights::DESTROY())?;
        let id = cap.object.0;
        self.epochs.insert(id, cap.epoch + 1);
        Ok(())
    }

    /// Revokes, then mints one fresh capability with `cap`'s rights at the
    /// new epoch: afterwards it is the only live capability for the object.
    /// `cap` must be live and hold `DESTROY`.
    pub fn reissue(&mut self, cap: &Capability) -> (r: Result<Capability, CapError>)
        requires
            old(self).wf(),
            old(self).can_bump(cap.object()),
        ensures
            final(self).wf(),
            r is Err <==> old(self).check_result(*cap, Rights::DESTROY()) is Err,
            r is Err ==> r == Err::<Capability, CapError>(
                old(self).check_result(*cap, Rights::DESTROY())->Err_0,
            ),
            final(self).next_id() == old(self).next_id(),
            r is Ok ==> final(self).epochs() == old(self).epochs().insert(
                cap.object().id(),
                (cap.epoch() + 1) as u64,
            ),
            r is Ok ==> r->Ok_0.object() == cap.object() && r->Ok_0.rights() == cap.rights()
                && r->Ok_0.epoch() == cap.epoch() + 1,
            r is Err ==> final(self).epochs() == old(self).epochs(),
    {
        self.revoke(cap)?;
        Ok(Capability { object: cap.object, rights: cap.rights, epoch: cap.epoch + 1 })
    }

    /// Derives a capability for the same object with exactly `requested`
    /// rights: `cap` must be live and hold `GRANT`, and `requested` must
    /// be a subset of what `cap` holds. Derivation only ever attenuates.
    pub fn derive(&self, cap: &Capability, requested: Rights) -> (r: Result<Capability, CapError>)
        ensures
            r == self.derive_result(*cap, requested),
    {
        self.check(cap, Rights::GRANT())?;
        if !cap.rights.contains(requested) {
            return Err(
                CapError::CannotAmplify { object: cap.object, held: cap.rights, requested },
            );
        }
        Ok(Capability { object: cap.object, rights: requested, epoch: cap.epoch })
    }

    /// What `derive(cap, requested)` answers on this kernel.
    pub open spec fn derive_result(&self, cap: Capability, requested: Rights) -> Result<
        Capability,
        CapError,
    > {
        match self.check_result(cap, Rights::GRANT()) {
            Err(e) => Err(e),
            Ok(_) => if !bits_contain(cap.rights().bits(), requested.bits()) {
                Err(
                    CapError::CannotAmplify {
                        object: cap.object(),
                        held: cap.rights(),
                        requested,
                    },
                )
            } else {
                Ok(cap.with_rights(requested))
            },
        }
    }

    /// Removes the object from the table: every capability for it,
    /// `cap` included, then fails `check` with `UnknownObject`.
    /// Requires `DESTROY`.
    pub fn destroy_object(&mut self, cap: &Capability) -> (r: Result<(), CapError>)
        requires
            old(self).wf(),
        ensures
            final(self).wf(),
            r == old(self).check_result(*cap, Rights::DESTROY()),
            final(self).next_id() == old(self).next_id(),
            r is Ok ==> final(self).epochs() == old(self).epochs().remove(cap.object().id()),
            r is Err ==> final(self).epochs() == old(self).epochs(),
    {
        self.check(cap, Rights::DESTROY())?;
        self.epochs.remove(&cap.object.0);
        Ok(())
    }
}

impl Capability {
    /// The same object and epoch with other rights.
    pub closed spec fn with_rights(self, rights: Rights) -> Capability {
        Capability { rights, ..self }
    }

    pub broadcast proof fn lemma_with_rights(self, rights: Rights)
        ensures
            #[trigger] self.with_rights(rights).object() == self.object(),
            self.with_rights(rights).rights() == rights,
            self.with_rights(rights).epoch() == self.epoch(),
    {
    }
}

/// Revocation invalidates every outstanding capability for the object:
/// once `revoke(cap)` has succeeded (taking the kernel from `before` to
/// `after`), any capability `c` for the same object that passed `check`
/// for `required` before now fails it with `Revoked`, and every capability
/// minted up to the revoked epoch fails.
pub proof fn law_revoke_invalidates_every_capability(
    before: Kernel,
    after: Kernel,
    cap: Capability,
    c: Capability,
    required: Rights,
)
    requires
        before.check_result(cap, Rights::DESTROY()) is Ok,
        before.can_bump(cap.object()),
        after.epochs() == before.epochs().insert(cap.object().id(), (cap.epoch() + 1) as u64),
        c.object() == cap.object(),
        c.epoch() <= cap.epoch(),
    ensures
        before.check_result(c, required) is Ok ==> after.check_result(c, required) == Err::<
            (),
            CapError,
        >(CapError::Revoked(cap.object())),
        after.check_result(c, required) is Err,
{
}

/// Revocation is per object: capabilities for every other object answer
/// `check` exactly as before.
pub proof fn law_revoke_leaves_other_objects_alone(
    before: Kernel,
    after: Kernel,
    cap: Capability,
    other: Capability,
    required: Rights,
)
    requires
        after.epochs() == before.epochs().insert(cap.object().id(), (cap.epoch() + 1) as u64),
        other.object() != cap.object(),
    ensures
        after.check_result(other, required) == before.check_result(other, required),
{
    ObjectId::lemma_id_determines(other.object(), cap.object());
}

/// Derivation never amplifies: a derived capability names the same object
/// at the same epoch with exactly the requested rights, all of which the
/// parent held; an amplifying request is refused with `CannotAmplify`.
pub proof fn law_derive_never_amplifies(k: Kernel, cap: Capability, requested: Rights)
    ensures
        k.derive_result(cap, requested) is Ok ==> {
            let d = k.derive_result(cap, requested)->Ok_0;
            &&& d.rights() == requested
            &&& d.object() == cap.object()
            &&& d.epoch() == cap.epoch()
            &&& cap.rights().spec_contains(d.rights())
        },
        k.derive_result(cap, requested) matches Err(CapError::CannotAmplify { .. }) ==> !cap.rights(
        ).spec_contains(requested),
        k.check_result(cap, Rights::GRANT()) is Ok ==> (k.derive_result(cap, requested) is Ok
            <==> cap.rights().spec_contains(requested)),
{
    cap.lemma_with_rights(requested);
}

/// Attenuation composes: a capability derived from a derived capability
/// never holds a right the root did not.
pub proof fn law_attenuation_composes(
    k: Kernel,
    root: Capability,
    first_step: Rights,
    second_step: Rights,
)
    requires
        k.derive_result(root, first_step) is Ok,
        k.derive_result(k.derive_result(root, first_step)->Ok_0, second_step) is Ok,
    ensures
        ({
            let first = k.derive_result(root, first_step)->Ok_0;
            let second = k.derive_result(first, second_step)->Ok_0;
            &&& root.rights().spec_contains(second.rights())
            &&& first.rights().spec_contains(second.rights())
            &&& second.object() == root.object()
        }),
{
    let first = k.derive_result(root, first_step)->Ok_0;
    root.lemma_with_rights(first_step);
    first.lemma_with_rights(second_step);
    crate::rights::lemma_contains_transitive(root.rights().bits(), first_step.bits(), second_step.bits());
}

/// After a successful `reissue(cap)` (kernel `before` to `after`) the
/// returned capability is the only live authority over the object: a
/// capability for it is live exactly when it carries the fresh epoch, so
/// every copy of `cap` and everything derived from it is dead.
pub proof fn law_reissue_leaves_one_live_epoch(
    before: Kernel,
    after: Kernel,
    cap: Capability,
    fresh: Capability,
    c: Capability,
)
    requires
        before.check_result(cap, Rights::DESTROY()) is Ok,
        before.can_bump(cap.object()),
        after.epochs() == before.epochs().insert(cap.object().id(), (cap.epoch() + 1) as u64),
        fresh.object() == cap.object(),
        fresh.rights() == cap.rights(),
        fresh.epoch() == cap.epoch() + 1,
        c.object() == cap.object(),
    ensures
        after.is_live(fresh),
        after.check_result(fresh, Rights::DESTROY()) is Ok,
        after.is_live(c) <==> c.epoch() == fresh.epoch(),
        before.is_live(c) ==> !after.is_live(c),
{
}

/// Destruction is distinct from revocation: after `destroy_object(cap)`
/// succeeded, every capability for the object fails `check` with
/// `UnknownObject`, whatever rights it holds or is asked for.
pub proof fn law_destroy_makes_every_capability_unknown(
    before: Kernel,
    after: Kernel,
    cap: Capability,
    c: Capability,
    required: Rights,
)
    requires
        after.epochs() == before.epochs().remove(cap.object().id()),
        c.object() == cap.object(),
    ensures
        after.check_result(c, required) == Err::<(), CapError>(CapError::UnknownObject(cap.object())),
{
}

/// Only a live capability holding `DESTROY` can revoke: a revoked copy or
/// a weaker view is refused, so a stale holder can never bump the epoch
/// again and kill capabilities issued since.
pub proof fn law_only_live_destroy_holders_revoke(k: Kernel, cap: Capability)
    ensures
        k.check_result(cap, Rights::DESTROY()) is Ok <==> (k.is_live(cap) && cap.rights().spec_contains(
            Rights::DESTROY(),
        )),
        k.epochs().contains_key(cap.object().id()) && !k.is_live(cap) ==> k.check_result(
            cap,
            Rights::DESTROY(),
        ) == Err::<(), CapError>(CapError::Revoked(cap.object())),
{
}

} // verus!
