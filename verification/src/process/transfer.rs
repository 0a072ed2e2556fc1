//! The one place a batch of capabilities leaves a process's table, shared
//! by `Scheduler::spawn_child` (destination: a new child) and
//! `ChannelRegistry::send` (destination: a message). A batch of
//! `Transfer`/`Derive`/`Move` requests is validated all-or-nothing first
//! (`resolve_grants`, which mutates nothing), then applied
//! (`apply_grants`).
use vstd::prelude::*;

use crate::capability::{CapError, Capability, Kernel, ObjectId};
use crate::process::table::{Handle, Process};
use crate::rights::Rights;

verus! {

broadcast use crate::rights::group_rights_bits;

/// One capability to move out of a source process's table.
#[derive(Debug, Clone, Copy, PartialEq, Eq, Structural)]
pub enum Grant {
    /// Move the capability at the handle out of the table. Not
    /// kernel-enforced: a copy the source kept still works. Right for
    /// shared objects such as channel endpoints.
    Transfer(Handle),
    /// Deliver a derived, equal-or-weaker capability; the source keeps its
    /// own original untouched.
    Derive(Handle, Rights),
    /// Kernel-enforced exclusive handoff: like `Transfer`, and the object
    /// is reissued, so every other capability for it (kept copies, derived
    /// views, ones still in flight) fails every later check. Needs a live
    /// capability holding `DESTROY`.
    Move(Handle),
}

#[derive(Debug, Clone, Copy, PartialEq, Eq, Structural)]
pub enum GrantError {
    /// The handle does not exist in the source process's table.
    UnknownHandle,
    /// The handle is transferred or moved more than once in one batch.
    DuplicateTransfer(Handle),
    /// The object is moved in this batch but also named by another grant,
    /// whose capability the move would revoke on arrival.
    MoveConflict(ObjectId),
    /// The capability itself was refused.
    Capability(CapError),
}

/// The handle a grant names.
pub open spec fn grant_handle(g: Grant) -> Handle {
    match g {
        Grant::Transfer(h) => h,
        Grant::Derive(h, _) => h,
        Grant::Move(h) => h,
    }
}

/// The grant takes its handle out of the source's table.
pub open spec fn leaves_table(g: Grant) -> bool {
    g is Transfer || g is Move
}

/// Grant `i` takes out a handle an earlier grant of the batch already took.
pub open spec fn is_duplicate(grants: Seq<Grant>, i: int) -> bool {
    &&& leaves_table(grants[i])
    &&& exists|j: int|
        0 <= j < i && leaves_table(#[trigger] grants[j]) && grant_handle(grants[j])
            == grant_handle(grants[i])
}

/// What one grant resolves to against the source's table, on its own.
pub open spec fn resolve_one(k: Kernel, table: Map<u32, Capability>, g: Grant) -> Result<
    Capability,
    GrantError,
> {
    let h = grant_handle(g).0;
    if !table.contains_key(h) {
        Err(GrantError::UnknownHandle)
    } else {
        match g {
            Grant::Transfer(_) => Ok(table[h]),
            Grant::Derive(_, rights) => match k.derive_result(table[h], rights) {
                Ok(c) => Ok(c),
                Err(e) => Err(GrantError::Capability(e)),
            },
            Grant::Move(_) => match k.check_result(table[h], Rights::DESTROY()) {
                Ok(_) => Ok(table[h]),
                Err(e) => Err(GrantError::Capability(e)),
            },
        }
    }
}

/// The first `n` grants resolved in order; the first refusal wins.
pub open spec fn resolve_prefix(
    k: Kernel,
    table: Map<u32, Capability>,
    grants: Seq<Grant>,
    n: nat,
) -> Result<Seq<Capability>, GrantError>
    decreases n,
{
    if n == 0 {
        Ok(Seq::empty())
    } else {
        match resolve_prefix(k, table, grants, (n - 1) as nat) {
            Err(e) => Err(e),
            Ok(s) => if is_duplicate(grants, n - 1) {
                Err(GrantError::DuplicateTransfer(grant_handle(grants[n - 1])))
            } else {
                match resolve_one(k, table, grants[n - 1]) {
                    Ok(c) => Ok(s.push(c)),
                    Err(e) => Err(e),
                }
            },
        }
    }
}

/// Grant `i` moves an object another resolved grant of the batch also names.
pub open spec fn move_conflicts(grants: Seq<Grant>, resolved: Seq<Capability>, i: int) -> bool {
    &&& grants[i] is Move
    &&& exists|j: int|
        0 <= j < resolved.len() && j != i && (#[trigger] resolved[j]).object()
            == resolved[i].object()
}

/// The object of the first conflicting move at index `i` or later.
pub open spec fn first_conflict(grants: Seq<Grant>, resolved: Seq<Capability>, i: nat) -> Option<
    ObjectId,
>
    decreases grants.len() - i,
{
    if i >= grants.len() {
        None
    } else if move_conflicts(grants, resolved, i as int) {
        Some(resolved[i as int].object())
    } else {
        first_conflict(grants, resolved, i + 1)
    }
}

/// What `resolve_grants` answers for a batch against a table.
pub open spec fn resolve_spec(k: Kernel, table: Map<u32, Capability>, grants: Seq<Grant>) -> Result<
    Seq<Capability>,
    GrantError,
> {
    match resolve_prefix(k, table, grants, grants.len()) {
        Err(e) => Err(e),
        Ok(s) => match first_conflict(grants, s, 0) {
            Some(o) => Err(GrantError::MoveConflict(o)),
            None => Ok(s),
        },
    }
}

/// Every moved capability's object can take one more epoch.
pub open spec fn moves_can_bump(k: Kernel, table: Map<u32, Capability>, grants: Seq<Grant>) -> bool {
    forall|i: int|
        0 <= i < grants.len() && (#[trigger] grants[i]) is Move && table.contains_key(
            grant_handle(grants[i]).0,
        ) ==> k.can_bump(table[grant_handle(grants[i]).0].object())
}

/// The handles a batch takes out of the source's table.
pub open spec fn leaving_handles(grants: Seq<Grant>) -> Set<u32> {
    Set::new(
        |h: u32|
            exists|i: int|
                0 <= i < grants.len() && leaves_table(#[trigger] grants[i]) && grant_handle(
                    grants[i],
                ).0 == h,
    )
}

/// Some grant of the batch moves the object with this id.
pub open spec fn moved_object(grants: Seq<Grant>, resolved: Seq<Capability>, id: u64) -> bool {
    exists|i: int|
        0 <= i < grants.len() && (#[trigger] grants[i]) is Move && resolved[i].object().id() == id
}

/// `after` is `before` with the epoch of every moved object bumped once.
pub open spec fn moves_bumped(
    before: Map<u64, u64>,
    after: Map<u64, u64>,
    grants: Seq<Grant>,
    resolved: Seq<Capability>,
) -> bool {
    &&& after.dom() == before.dom()
    &&& forall|id: u64| #[trigger]
        after.contains_key(id) ==> after[id] == (if moved_object(grants, resolved, id) {
            (before[id] + 1) as u64
        } else {
            before[id]
        })
}

/// What the batch delivers for resolved capability `c` of grant `g`: a
/// move's reissued capability one epoch later, otherwise `c` itself.
pub open spec fn delivered_as(g: Grant, c: Capability, d: Capability) -> bool {
    if g is Move {
        d.object() == c.object() && d.rights() == c.rights() && d.epoch() == c.epoch() + 1
    } else {
        d == c
    }
}

/// Facts about every grant of a batch whose first `n` grants resolved.
pub proof fn lemma_resolve_prefix(
    k: Kernel,
    table: Map<u32, Capability>,
    grants: Seq<Grant>,
    n: nat,
)
    requires
        n <= grants.len(),
        resolve_prefix(k, table, grants, n) is Ok,
    ensures
        ({
            let s = resolve_prefix(k, table, grants, n)->Ok_0;
            &&& s.len() == n
            &&& forall|i: int| 0 <= i < n ==> table.contains_key(grant_handle(#[trigger] grants[i]).0)
            &&& forall|i: int|
                0 <= i < n ==> resolve_one(k, table, #[trigger] grants[i]) == Ok::<
                    Capability,
                    GrantError,
                >(s[i])
            &&& forall|i: int, j: int|
                0 <= j < i < n && leaves_table(#[trigger] grants[i]) && leaves_table(
                    #[trigger] grants[j],
                ) ==> grant_handle(grants[i]) != grant_handle(grants[j])
        }),
    decreases n,
{
    if n > 0 {
        lemma_resolve_prefix(k, table, grants, (n - 1) as nat);
        let s = resolve_prefix(k, table, grants, (n - 1) as nat)->Ok_0;
        assert(!is_duplicate(grants, n - 1));
        let t = resolve_prefix(k, table, grants, n)->Ok_0;
        assert forall|i: int| 0 <= i < n implies resolve_one(k, table, #[trigger] grants[i]) == Ok::<
            Capability,
            GrantError,
        >(t[i]) by {
            if i < n - 1 {
                assert(t[i] == s[i]);
            }
        }
    }
}

/// Once a prefix of the batch is refused, every longer prefix is refused
/// the same way.
pub proof fn lemma_prefix_err_persists(
    k: Kernel,
    table: Map<u32, Capability>,
    grants: Seq<Grant>,
    n: nat,
    m: nat,
)
    requires
        n <= m,
        resolve_prefix(k, table, grants, n) is Err,
    ensures
        resolve_prefix(k, table, grants, m) == resolve_prefix(k, table, grants, n),
    decreases m - n,
{
    if n < m {
        lemma_prefix_err_persists(k, table, grants, n, (m - 1) as nat);
    }
}

/// No move of a batch with no first conflict conflicts.
pub proof fn lemma_no_conflict(grants: Seq<Grant>, resolved: Seq<Capability>, i: nat)
    requires
        first_conflict(grants, resolved, i) is None,
    ensures
        forall|j: int| i <= j < grants.len() ==> !move_conflicts(grants, resolved, j),
    decreases grants.len() - i,
{
    if i < grants.len() {
        lemma_no_conflict(grants, resolved, i + 1);
    }
}

/// Where no move of the batch conflicts from `i` on, none is reported from
/// there.
pub proof fn lemma_no_conflict_none(grants: Seq<Grant>, resolved: Seq<Capability>, i: nat)
    requires
        forall|j: int| i <= j < grants.len() ==> !move_conflicts(grants, resolved, j),
    ensures
        first_conflict(grants, resolved, i) is None,
    decreases grants.len() - i,
{
    if i < grants.len() {
        lemma_no_conflict_none(grants, resolved, i + 1);
    }
}

/// The capability one grant resolves to is on the object its handle names.
pub proof fn lemma_resolve_one_object(k: Kernel, table: Map<u32, Capability>, g: Grant)
    requires
        resolve_one(k, table, g) is Ok,
    ensures
        table.contains_key(grant_handle(g).0),
        resolve_one(k, table, g)->Ok_0.object() == table[grant_handle(g).0].object(),
{
    if let Grant::Derive(_, rights) = g {
        table[grant_handle(g).0].lemma_with_rights(rights);
    }
}

/// A batch led by derives that each resolve, none on an object a later grant
/// names, resolves exactly when its tail does: to the derived capabilities
/// followed by the tail's, moving the same objects and taking the same
/// handles out of the table.
pub proof fn lemma_resolve_after_derives(k: Kernel, table: Map<u32, Capability>, pre: Seq<Grant>, gs: Seq<Grant>)
    requires
        forall|i: int| 0 <= i < pre.len() ==> (#[trigger] pre[i]) is Derive && resolve_one(k, table, pre[i]) is Ok,
        forall|i: int, j: int|
            0 <= i < pre.len() && 0 <= j < gs.len() && table.contains_key(grant_handle(gs[j]).0) ==> table[grant_handle(
                #[trigger] pre[i],
            ).0].object() != table[grant_handle(#[trigger] gs[j]).0].object(),
    ensures
        ({
            let all = pre + gs;
            let head = Seq::new(pre.len(), |i: int| resolve_one(k, table, pre[i])->Ok_0);
            &&& resolve_spec(k, table, all) is Ok <==> resolve_spec(k, table, gs) is Ok
            &&& resolve_spec(k, table, gs) is Ok ==> resolve_spec(k, table, all)->Ok_0 == head + resolve_spec(k, table, gs)->Ok_0
            &&& leaving_handles(all) == leaving_handles(gs)
            &&& resolve_spec(k, table, gs) is Ok ==> forall|id: u64|
                moved_object(all, head + resolve_spec(k, table, gs)->Ok_0, id) <==> moved_object(
                    gs,
                    resolve_spec(k, table, gs)->Ok_0,
                    id,
                )
        }),
{
    let all = pre + gs;
    let np = pre.len();
    let head = Seq::new(np, |i: int| resolve_one(k, table, pre[i])->Ok_0);
    lemma_resolve_head(k, table, pre, gs, np);
    assert(head.take(np as int) =~= head);
    lemma_resolve_tail(k, table, pre, gs, gs.len());
    assert(all.len() == np + gs.len());
    assert forall|h: u32| leaving_handles(all).contains(h) <==> leaving_handles(gs).contains(h) by {
        if leaving_handles(all).contains(h) {
            let i = choose|i: int| 0 <= i < all.len() && leaves_table(#[trigger] all[i]) && grant_handle(all[i]).0 == h;
            assert(i >= np);
            assert(all[i] == gs[i - np]);
        }
        if leaving_handles(gs).contains(h) {
            let i = choose|i: int| 0 <= i < gs.len() && leaves_table(#[trigger] gs[i]) && grant_handle(gs[i]).0 == h;
            assert(all[i + np] == gs[i]);
        }
    }
    assert(leaving_handles(all) =~= leaving_handles(gs));
    if resolve_prefix(k, table, gs, gs.len()) is Ok {
        let s = resolve_prefix(k, table, gs, gs.len())->Ok_0;
        lemma_resolve_prefix(k, table, gs, gs.len());
        let r = head + s;
        assert(resolve_prefix(k, table, all, all.len()) == Ok::<Seq<Capability>, GrantError>(r));
        assert forall|i: int| 0 <= i < all.len() implies move_conflicts(all, r, i) == (i >= np && move_conflicts(gs, s, i - np)) by {
            if i >= np {
                assert(all[i] == gs[i - np]);
                assert(r[i] == s[i - np]);
                if move_conflicts(all, r, i) {
                    let j = choose|j: int| 0 <= j < r.len() && j != i && (#[trigger] r[j]).object() == r[i].object();
                    lemma_resolve_one_object(k, table, gs[i - np]);
                    if j < np {
                        lemma_resolve_one_object(k, table, pre[j]);
                        assert(r[j] == head[j]);
                        assert(false);
                    } else {
                        assert(r[j] == s[j - np]);
                        assert(move_conflicts(gs, s, i - np));
                    }
                }
                if move_conflicts(gs, s, i - np) {
                    let j = choose|j: int| 0 <= j < s.len() && j != i - np && (#[trigger] s[j]).object() == s[i - np].object();
                    assert(r[j + np] == s[j]);
                    assert(move_conflicts(all, r, i));
                }
            }
        }
        if first_conflict(gs, s, 0) is None {
            lemma_no_conflict(gs, s, 0);
            assert forall|i: int| 0 <= i < all.len() implies !move_conflicts(all, r, i) by {
                if i >= np {
                    assert(!move_conflicts(gs, s, i - np));
                }
            }
            lemma_no_conflict_none(all, r, 0);
        } else {
            lemma_first_conflict_is_real(gs, s, 0);
            let j = choose|j: int| 0 <= j < gs.len() && move_conflicts(gs, s, j) && s[j].object() == first_conflict(gs, s, 0)->Some_0;
            assert(move_conflicts(all, r, j + np));
            if first_conflict(all, r, 0) is None {
                lemma_no_conflict(all, r, 0);
            }
        }
        assert forall|id: u64| moved_object(all, r, id) <==> moved_object(gs, s, id) by {
            if moved_object(all, r, id) {
                let i = choose|i: int| 0 <= i < all.len() && (#[trigger] all[i]) is Move && r[i].object().id() == id;
                assert(i >= np);
                assert(all[i] == gs[i - np]);
                assert(r[i] == s[i - np]);
            }
            if moved_object(gs, s, id) {
                let i = choose|i: int| 0 <= i < gs.len() && (#[trigger] gs[i]) is Move && s[i].object().id() == id;
                assert(all[i + np] == gs[i]);
                assert(r[i + np] == s[i]);
            }
        }
    }
}

/// The derives that lead such a batch resolve, in order.
proof fn lemma_resolve_head(k: Kernel, table: Map<u32, Capability>, pre: Seq<Grant>, gs: Seq<Grant>, i: nat)
    requires
        i <= pre.len(),
        forall|x: int| 0 <= x < pre.len() ==> (#[trigger] pre[x]) is Derive && resolve_one(k, table, pre[x]) is Ok,
    ensures
        resolve_prefix(k, table, pre + gs, i) == Ok::<Seq<Capability>, GrantError>(
            Seq::new(pre.len(), |x: int| resolve_one(k, table, pre[x])->Ok_0).take(i as int),
        ),
    decreases i,
{
    let head = Seq::new(pre.len(), |x: int| resolve_one(k, table, pre[x])->Ok_0);
    if i > 0 {
        lemma_resolve_head(k, table, pre, gs, (i - 1) as nat);
        let all = pre + gs;
        assert(all[i - 1] == pre[i - 1]);
        assert(!leaves_table(all[i - 1]));
        assert(!is_duplicate(all, i - 1));
        assert(head.take(i - 1).push(head[i - 1]) =~= head.take(i as int));
        assert(resolve_one(k, table, all[i - 1]) == Ok::<Capability, GrantError>(head[i - 1]));
    } else {
        assert(head.take(0) =~= Seq::<Capability>::empty());
    }
}

/// Past the derives, such a batch resolves as its tail does.
proof fn lemma_resolve_tail(k: Kernel, table: Map<u32, Capability>, pre: Seq<Grant>, gs: Seq<Grant>, n: nat)
    requires
        n <= gs.len(),
        resolve_prefix(k, table, pre + gs, pre.len()) == Ok::<Seq<Capability>, GrantError>(
            Seq::new(pre.len(), |x: int| resolve_one(k, table, pre[x])->Ok_0),
        ),
        forall|x: int| 0 <= x < pre.len() ==> (#[trigger] pre[x]) is Derive,
    ensures
        resolve_prefix(k, table, pre + gs, pre.len() + n) == match resolve_prefix(k, table, gs, n) {
            Ok(s) => Ok::<Seq<Capability>, GrantError>(Seq::new(pre.len(), |x: int| resolve_one(k, table, pre[x])->Ok_0) + s),
            Err(e) => Err(e),
        },
    decreases n,
{
    if n > 0 {
        lemma_resolve_tail(k, table, pre, gs, (n - 1) as nat);
        let all = pre + gs;
        let np = pre.len();
        let head = Seq::new(np, |x: int| resolve_one(k, table, pre[x])->Ok_0);
        let i = np + n - 1;
        assert(all[i] == gs[n - 1]);
        assert(is_duplicate(all, i) == is_duplicate(gs, n - 1)) by {
            if is_duplicate(all, i) {
                let j = choose|j: int| 0 <= j < i && leaves_table(#[trigger] all[j]) && grant_handle(all[j]) == grant_handle(all[i]);
                assert(j >= np);
                assert(all[j] == gs[j - np]);
                assert(leaves_table(gs[j - np]));
            }
            if is_duplicate(gs, n - 1) {
                let j = choose|j: int| 0 <= j < n - 1 && leaves_table(#[trigger] gs[j]) && grant_handle(gs[j]) == grant_handle(gs[n - 1]);
                assert(all[j + np] == gs[j]);
                assert(leaves_table(all[j + np]));
            }
        }
        if let Ok(s) = resolve_prefix(k, table, gs, (n - 1) as nat) {
            if let Ok(c) = resolve_one(k, table, gs[n - 1]) {
                assert((head + s).push(c) =~= head + s.push(c));
            }
        }
    }
}

/// The first conflicting move, when there is one, really conflicts.
pub proof fn lemma_first_conflict_is_real(grants: Seq<Grant>, resolved: Seq<Capability>, i: nat)
    requires
        first_conflict(grants, resolved, i) is Some,
    ensures
        exists|j: int|
            i <= j < grants.len() && move_conflicts(grants, resolved, j) && resolved[j].object()
                == first_conflict(grants, resolved, i)->Some_0,
    decreases grants.len() - i,
{
    if i < grants.len() && !move_conflicts(grants, resolved, i as int) {
        lemma_first_conflict_is_real(grants, resolved, i + 1);
    }
}

/// A batch in which every grant resolves on its own to `caps[i]`, no handle
/// leaves twice, and no moved object is named by another grant, resolves to
/// `caps`.
pub proof fn lemma_resolve_ok(
    k: Kernel,
    table: Map<u32, Capability>,
    grants: Seq<Grant>,
    caps: Seq<Capability>,
)
    requires
        caps.len() == grants.len(),
        forall|i: int|
            0 <= i < grants.len() ==> resolve_one(k, table, #[trigger] grants[i]) == Ok::<
                Capability,
                GrantError,
            >(caps[i]),
        forall|i: int, j: int|
            0 <= j < i < grants.len() && leaves_table(#[trigger] grants[i]) && leaves_table(
                #[trigger] grants[j],
            ) ==> grant_handle(grants[i]) != grant_handle(grants[j]),
        forall|i: int, j: int|
            0 <= i < grants.len() && 0 <= j < grants.len() && i != j && (#[trigger] grants[i]) is Move
                ==> (#[trigger] caps[j]).object() != caps[i].object(),
    ensures
        resolve_spec(k, table, grants) == Ok::<Seq<Capability>, GrantError>(caps),
{
    lemma_resolve_prefix_ok(k, table, grants, caps, grants.len());
    assert(caps.take(grants.len() as int) =~= caps);
    lemma_no_first_conflict(grants, caps, 0);
}

proof fn lemma_resolve_prefix_ok(
    k: Kernel,
    table: Map<u32, Capability>,
    grants: Seq<Grant>,
    caps: Seq<Capability>,
    n: nat,
)
    requires
        n <= grants.len(),
        caps.len() == grants.len(),
        forall|i: int|
            0 <= i < grants.len() ==> resolve_one(k, table, #[trigger] grants[i]) == Ok::<
                Capability,
                GrantError,
            >(caps[i]),
        forall|i: int, j: int|
            0 <= j < i < grants.len() && leaves_table(#[trigger] grants[i]) && leaves_table(
                #[trigger] grants[j],
            ) ==> grant_handle(grants[i]) != grant_handle(grants[j]),
    ensures
        resolve_prefix(k, table, grants, n) == Ok::<Seq<Capability>, GrantError>(caps.take(n as int)),
    decreases n,
{
    if n > 0 {
        lemma_resolve_prefix_ok(k, table, grants, caps, (n - 1) as nat);
        if is_duplicate(grants, n - 1) {
            let j = choose|j: int|
                0 <= j < n - 1 && leaves_table(#[trigger] grants[j]) && grant_handle(grants[j])
                    == grant_handle(grants[n - 1]);
            assert(grant_handle(grants[n - 1]) != grant_handle(grants[j]));
        }
        assert(resolve_one(k, table, grants[n - 1]) == Ok::<Capability, GrantError>(caps[n - 1]));
        assert(caps.take(n - 1).push(caps[n - 1]) =~= caps.take(n as int));
    } else {
        assert(caps.take(0) =~= Seq::<Capability>::empty());
    }
}

pub proof fn lemma_no_first_conflict(grants: Seq<Grant>, caps: Seq<Capability>, i: nat)
    requires
        caps.len() == grants.len(),
        forall|a: int, b: int|
            0 <= a < grants.len() && 0 <= b < grants.len() && a != b && (#[trigger] grants[a]) is Move
                ==> (#[trigger] caps[b]).object() != caps[a].object(),
    ensures
        first_conflict(grants, caps, i) is None,
    decreases grants.len() - i,
{
    if i < grants.len() {
        if move_conflicts(grants, caps, i as int) {
            let j = choose|j: int|
                0 <= j < caps.len() && j != i && (#[trigger] caps[j]).object() == caps[i as int].object();
            assert(grants[i as int] is Move);
            assert(caps[j].object() != caps[i as int].object());
        }
        lemma_no_first_conflict(grants, caps, i + 1);
    }
}

/// When prefix `n` resolved but prefix `n + 1` did not, the whole batch
/// is refused with that error.
proof fn refused_here(k: Kernel, table: Map<u32, Capability>, grants: Seq<Grant>, n: nat)
    requires
        n < grants.len(),
        resolve_prefix(k, table, grants, n) is Ok,
        resolve_prefix(k, table, grants, n + 1) is Err,
    ensures
        resolve_spec(k, table, grants) == resolve_prefix(k, table, grants, n + 1),
{
    lemma_prefix_err_persists(k, table, grants, n + 1, grants.len());
}

fn contains_handle(seen: &Vec<u32>, h: u32) -> (r: bool)
    ensures
        r == seen@.contains(h),
{
    let mut i: usize = 0;
    while i < seen.len()
        invariant
            0 <= i <= seen.len(),
            forall|j: int| 0 <= j < i ==> seen@[j] != h,
        decreases seen.len() - i,
    {
        if seen[i] == h {
            return true;
        }
        i = i + 1;
    }
    false
}

/// The resolution as a sequence, for comparing with `resolve_spec`.
pub open spec fn seq_result(r: Result<Vec<Capability>, GrantError>) -> Result<
    Seq<Capability>,
    GrantError,
> {
    match r {
        Ok(v) => Ok(v@),
        Err(e) => Err(e),
    }
}

/// Validates every grant against `source`'s table without mutating
/// anything, and returns the resolved capabilities in order if every one
/// would succeed. A `Move`'s entry is the source's current capability,
/// which `apply_grants` replaces with the reissued one.
pub fn resolve_grants(kernel: &Kernel, source: &Process, grants: &[Grant]) -> (r: Result<
    Vec<Capability>,
    GrantError,
>)
    ensures
        seq_result(r) == resolve_spec(*kernel, source.table(), grants@),
{
    let mut resolved: Vec<Capability> = Vec::new();
    let mut transferred: Vec<u32> = Vec::new();
    let mut i: usize = 0;
    while i < grants.len()
        invariant
            0 <= i <= grants.len(),
            resolve_prefix(*kernel, source.table(), grants@, i as nat) == Ok::<
                Seq<Capability>,
                GrantError,
            >(resolved@),
            forall|h: u32|
                transferred@.contains(h) <==> exists|j: int|
                    0 <= j < i && leaves_table(#[trigger] grants@[j]) && grant_handle(grants@[j]).0
                        == h,
        decreases grants.len() - i,
    {
        let g = grants[i];
        let ghost gs = grants@;
        let ghost t0 = transferred@;
        match g {
            Grant::Transfer(h) | Grant::Move(h) => {
                if contains_handle(&transferred, h.0) {
                    proof {
                        let j = choose|j: int|
                            0 <= j < i && leaves_table(#[trigger] gs[j]) && grant_handle(gs[j]).0
                                == h.0;
                        assert(is_duplicate(gs, i as int));
                        refused_here(*kernel, source.table(), gs, i as nat);
                    }
                    return Err(GrantError::DuplicateTransfer(h));
                }
                transferred.push(h.0);
            },
            Grant::Derive(..) => {},
        }
        proof {
            assert(!is_duplicate(gs, i as int));
        }
        let cap = match g {
            Grant::Transfer(h) => match source.capability(h) {
                Some(c) => c,
                None => {
                    proof {
                        refused_here(*kernel, source.table(), gs, i as nat);
                    }
                    return Err(GrantError::UnknownHandle);
                },
            },
            Grant::Derive(h, rights) => {
                let held = match source.capability(h) {
                    Some(c) => c,
                    None => {
                        proof {
                            refused_here(*kernel, source.table(), gs, i as nat);
                        }
                        return Err(GrantError::UnknownHandle);
                    },
                };
                match kernel.derive(&held, rights) {
                    Ok(c) => c,
                    Err(e) => {
                        proof {
                            refused_here(*kernel, source.table(), gs, i as nat);
                        }
                        return Err(GrantError::Capability(e));
                    },
                }
            },
            Grant::Move(h) => {
                let held = match source.capability(h) {
                    Some(c) => c,
                    None => {
                        proof {
                            refused_here(*kernel, source.table(), gs, i as nat);
                        }
                        return Err(GrantError::UnknownHandle);
                    },
                };
                match kernel.check(&held, Rights::DESTROY()) {
                    Ok(()) => {},
                    Err(e) => {
                        proof {
                            refused_here(*kernel, source.table(), gs, i as nat);
                        }
                        return Err(GrantError::Capability(e));
                    },
                }
                held
            },
        };
        resolved.push(cap);
        i = i + 1;
        proof {
            let iv = (i - 1) as int;
            if leaves_table(gs[iv]) {
                assert(transferred@ == t0.push(grant_handle(gs[iv]).0));
            } else {
                assert(transferred@ == t0);
            }
            assert forall|h: u32|
                transferred@.contains(h) <==> exists|j: int|
                    0 <= j < i && leaves_table(#[trigger] gs[j]) && grant_handle(gs[j]).0 == h by {
                if transferred@.contains(h) {
                    let k = choose|k: int| 0 <= k < transferred@.len() && transferred@[k] == h;
                    if k < t0.len() {
                        assert(t0[k] == h);
                        assert(t0.contains(h));
                        let j = choose|j: int|
                            0 <= j < iv && leaves_table(#[trigger] gs[j]) && grant_handle(gs[j]).0
                                == h;
                        assert(0 <= j < i);
                    } else {
                        assert(leaves_table(gs[iv]) && grant_handle(gs[iv]).0 == h);
                    }
                }
                if exists|j: int|
                    0 <= j < i && leaves_table(#[trigger] gs[j]) && grant_handle(gs[j]).0 == h {
                    let j = choose|j: int|
                        0 <= j < i && leaves_table(#[trigger] gs[j]) && grant_handle(gs[j]).0 == h;
                    if j < iv {
                        assert(t0.contains(h));
                        let k = choose|k: int| 0 <= k < t0.len() && t0[k] == h;
                        assert(transferred@[k] == h);
                    } else {
                        assert(transferred@[t0.len() as int] == h);
                    }
                }
            }
        }
    }
    proof {
        lemma_resolve_prefix(*kernel, source.table(), grants@, grants@.len());
    }
    let mut m: usize = 0;
    while m < grants.len()
        invariant
            0 <= m <= grants.len(),
            resolved.len() == grants.len(),
            resolve_prefix(*kernel, source.table(), grants@, grants@.len()) == Ok::<
                Seq<Capability>,
                GrantError,
            >(resolved@),
            first_conflict(grants@, resolved@, 0) == first_conflict(grants@, resolved@, m as nat),
        decreases grants.len() - m,
    {
        if let Grant::Move(_) = grants[m] {
            let object = resolved[m].object();
            let mut j: usize = 0;
            while j < resolved.len()
                invariant
                    0 <= j <= resolved.len(),
                    m < resolved.len(),
                    resolved.len() == grants.len(),
                    grants@[m as int] is Move,
                    object == resolved@[m as int].object(),
                    resolve_prefix(*kernel, source.table(), grants@, grants@.len()) == Ok::<
                        Seq<Capability>,
                        GrantError,
                    >(resolved@),
                    first_conflict(grants@, resolved@, 0) == first_conflict(
                        grants@,
                        resolved@,
                        m as nat,
                    ),
                    forall|x: int|
                        0 <= x < j && x != m ==> (#[trigger] resolved@[x]).object() != object,
                decreases resolved.len() - j,
            {
                if j != m && resolved[j].object() == object {
                    proof {
                        assert(resolved@[j as int].object() == resolved@[m as int].object());
                        assert(move_conflicts(grants@, resolved@, m as int));
                        assert(first_conflict(grants@, resolved@, m as nat) == Some(object));
                    }
                    return Err(GrantError::MoveConflict(object));
                }
                j = j + 1;
            }
            proof {
                assert(!move_conflicts(grants@, resolved@, m as int));
            }
        }
        m = m + 1;
    }
    Ok(resolved)
}

/// Performs the side effects of a batch `resolve_grants` validated:
/// removes every transferred or moved handle from `source` and reissues
/// every moved object, returning the capabilities to deliver (each move's
/// entry replaced by its fresh capability). `resolved` must be exactly what
/// `resolve_grants` answered for `grants`, with no kernel change between.
pub fn apply_grants(
    kernel: &mut Kernel,
    source: &mut Process,
    grants: &[Grant],
    resolved: Vec<Capability>,
) -> (delivered: Vec<Capability>)
    requires
        old(kernel).wf(),
        old(source).wf(),
        resolve_spec(*old(kernel), old(source).table(), grants@) == Ok::<
            Seq<Capability>,
            GrantError,
        >(resolved@),
        moves_can_bump(*old(kernel), old(source).table(), grants@),
    ensures
        final(kernel).wf(),
        final(source).wf(),
        final(kernel).next_id() == old(kernel).next_id(),
        moves_bumped(old(kernel).epochs(), final(kernel).epochs(), grants@, resolved@),
        final(source).table() == old(source).table().remove_keys(leaving_handles(grants@)),
        final(source).next_handle() == old(source).next_handle(),
        final(source).id() == old(source).id(),
        final(source).clock_state() == old(source).clock_state(),
        delivered.len() == grants.len(),
        forall|i: int|
            0 <= i < grants.len() ==> delivered_as(
                #[trigger] grants@[i],
                resolved@[i],
                delivered@[i],
            ),
{
    let ghost k0 = *kernel;
    let ghost table0 = source.table();
    proof {
        lemma_resolve_prefix(k0, table0, grants@, grants@.len());
        lemma_no_conflict(grants@, resolved@, 0);
    }
    let mut delivered: Vec<Capability> = Vec::new();
    let mut i: usize = 0;
    while i < grants.len()
        invariant
            0 <= i <= grants.len(),
            resolved.len() == grants.len(),
            kernel.wf(),
            source.wf(),
            k0.wf(),
            kernel.next_id() == k0.next_id(),
            source.next_handle() == old(source).next_handle(),
            source.id() == old(source).id(),
            source.clock_state() == old(source).clock_state(),
            moves_can_bump(k0, table0, grants@),
            forall|x: int| 0 <= x < grants.len() ==> table0.contains_key(grant_handle(#[trigger] grants@[x]).0),
            forall|x: int|
                0 <= x < grants.len() ==> resolve_one(k0, table0, #[trigger] grants@[x]) == Ok::<
                    Capability,
                    GrantError,
                >(resolved@[x]),
            forall|x: int, y: int|
                0 <= y < x < grants.len() && leaves_table(#[trigger] grants@[x]) && leaves_table(
                    #[trigger] grants@[y],
                ) ==> grant_handle(grants@[x]) != grant_handle(grants@[y]),
            forall|x: int| 0 <= x < grants.len() ==> !move_conflicts(grants@, resolved@, x),
            source.table() == table0.remove_keys(leaving_handles(grants@.take(i as int))),
            moves_bumped(k0.epochs(), kernel.epochs(), grants@.take(i as int), resolved@),
            delivered.len() == i,
            forall|x: int|
                0 <= x < i ==> delivered_as(#[trigger] grants@[x], resolved@[x], delivered@[x]),
        decreases grants.len() - i,
    {
        let g = grants[i];
        let cap = resolved[i];
        let ghost kb = *kernel;
        let ghost tb = source.table();
        let out = match g {
            Grant::Transfer(h) => {
                source.take(h);
                cap
            },
            Grant::Move(h) => {
                source.take(h);
                proof {
                    let id = cap.object().id();
                    assert(resolve_one(k0, table0, grants@[i as int]) == Ok::<Capability, GrantError>(cap));
                    assert(k0.check_result(cap, Rights::DESTROY()) is Ok);
                    assert(!moved_object(grants@.take(i as int), resolved@, id)) by {
                        if moved_object(grants@.take(i as int), resolved@, id) {
                            let j = choose|j: int|
                                0 <= j < grants@.take(i as int).len() && (#[trigger] grants@.take(i as int)[j]) is Move
                                    && resolved@[j].object().id() == id;
                            assert(grants@.take(i as int)[j] == grants@[j]);
                            ObjectId::lemma_id_determines(resolved@[j].object(), cap.object());
                            assert(move_conflicts(grants@, resolved@, i as int));
                        }
                    }
                    assert(kernel.epochs()[id] == k0.epochs()[id]);
                    assert(k0.can_bump(cap.object()));
                }
                match kernel.reissue(&cap) {
                    Ok(fresh) => fresh,
                    Err(_) => {
                        assert(false);
                        cap
                    },
                }
            },
            Grant::Derive(..) => cap,
        };
        delivered.push(out);
        proof {
            let gi = grants@.take(i as int);
            let gn = grants@.take(i + 1);
            assert(gn == gi.push(g));
            assert(leaving_handles(gn) == (if leaves_table(g) {
                leaving_handles(gi).insert(grant_handle(g).0)
            } else {
                leaving_handles(gi)
            })) by {
                assert forall|h: u32| leaving_handles(gn).contains(h) == (if leaves_table(g) {
                    leaving_handles(gi).insert(grant_handle(g).0)
                } else {
                    leaving_handles(gi)
                }).contains(h) by {
                    if leaving_handles(gn).contains(h) {
                        let j = choose|j: int|
                            0 <= j < gn.len() && leaves_table(#[trigger] gn[j]) && grant_handle(gn[j]).0 == h;
                        if j < i {
                            assert(gi[j] == gn[j]);
                        }
                    }
                    if leaving_handles(gi).contains(h) {
                        let j = choose|j: int|
                            0 <= j < gi.len() && leaves_table(#[trigger] gi[j]) && grant_handle(gi[j]).0 == h;
                        assert(gn[j] == gi[j]);
                    }
                    if leaves_table(g) && h == grant_handle(g).0 {
                        assert(gn[i as int] == g);
                    }
                }
            }
            assert(source.table() =~= table0.remove_keys(leaving_handles(gn)));
            assert forall|id: u64| #[trigger] moved_object(gn, resolved@, id) == (moved_object(gi, resolved@, id) || (g is Move && cap.object().id() == id)) by {
                if moved_object(gn, resolved@, id) {
                    let j = choose|j: int| 0 <= j < gn.len() && (#[trigger] gn[j]) is Move && resolved@[j].object().id() == id;
                    if j < i {
                        assert(gi[j] == gn[j]);
                    }
                }
                if moved_object(gi, resolved@, id) {
                    let j = choose|j: int| 0 <= j < gi.len() && (#[trigger] gi[j]) is Move && resolved@[j].object().id() == id;
                    assert(gn[j] == gi[j]);
                }
                if g is Move && cap.object().id() == id {
                    assert(gn[i as int] == g);
                }
            }
            if g is Move {
                assert(kernel.epochs() == kb.epochs().insert(cap.object().id(), (cap.epoch() + 1) as u64));
                assert(k0.epochs()[cap.object().id()] == cap.epoch());
            } else {
                assert(kernel.epochs() == kb.epochs());
            }
            assert(kernel.epochs().dom() =~= k0.epochs().dom());
            assert forall|id: u64| #[trigger] kernel.epochs().contains_key(id) implies kernel.epochs()[id] == (if moved_object(gn, resolved@, id) {
                (k0.epochs()[id] + 1) as u64
            } else {
                k0.epochs()[id]
            }) by {
                if g is Move && id == cap.object().id() {
                } else {
                    assert(kernel.epochs()[id] == kb.epochs()[id]);
                }
            }
            assert(moves_bumped(k0.epochs(), kernel.epochs(), gn, resolved@));
        }
        i = i + 1;
    }
    proof {
        assert(grants@.take(grants.len() as int) == grants@);
    }
    delivered
}

/// A batch is all-or-nothing and attenuation-only: when it resolves, every
/// derived capability holds exactly the requested rights, all held by the
/// source's capability for the same object; every transferred or moved one
/// is the source's own; and no handle leaves the table twice.
pub proof fn law_resolved_batch_never_amplifies(
    k: Kernel,
    table: Map<u32, Capability>,
    grants: Seq<Grant>,
    resolved: Seq<Capability>,
)
    requires
        resolve_spec(k, table, grants) == Ok::<Seq<Capability>, GrantError>(resolved),
    ensures
        resolved.len() == grants.len(),
        forall|i: int|
            0 <= i < grants.len() ==> {
                let held = #[trigger] table[grant_handle(grants[i]).0];
                &&& table.contains_key(grant_handle(grants[i]).0)
                &&& held.rights().spec_contains(resolved[i].rights())
                &&& resolved[i].object() == held.object()
                &&& (grants[i] matches Grant::Derive(_, r) ==> resolved[i].rights() == r)
                &&& (leaves_table(grants[i]) ==> resolved[i] == held)
            },
        forall|i: int, j: int|
            0 <= j < i < grants.len() && leaves_table(#[trigger] grants[i]) && leaves_table(
                #[trigger] grants[j],
            ) ==> grant_handle(grants[i]) != grant_handle(grants[j]),
{
    lemma_resolve_prefix(k, table, grants, grants.len());
    assert forall|i: int| 0 <= i < grants.len() implies {
        let held = #[trigger] table[grant_handle(grants[i]).0];
        &&& table.contains_key(grant_handle(grants[i]).0)
        &&& held.rights().spec_contains(resolved[i].rights())
        &&& resolved[i].object() == held.object()
        &&& (grants[i] matches Grant::Derive(_, r) ==> resolved[i].rights() == r)
        &&& (leaves_table(grants[i]) ==> resolved[i] == held)
    } by {
        let held = table[grant_handle(grants[i]).0];
        assert(resolve_one(k, table, grants[i]) == Ok::<Capability, GrantError>(resolved[i]));
        crate::rights::lemma_contains_reflexive(held.rights().bits());
        if let Grant::Derive(_, r) = grants[i] {
            held.lemma_with_rights(r);
        }
    }
}

/// A move is exclusive: once a batch that moves an object has been applied
/// (kernel `before` to `after`), the capability the batch delivers is live
/// and every capability for that object minted up to the moved one's
/// epoch (copies the source kept, views derived from it, ones in flight)
/// is dead.
pub proof fn law_move_revokes_every_other_copy(
    before: Kernel,
    after: Kernel,
    table: Map<u32, Capability>,
    grants: Seq<Grant>,
    resolved: Seq<Capability>,
    i: int,
    delivered: Capability,
    kept: Capability,
)
    requires
        resolve_spec(before, table, grants) == Ok::<Seq<Capability>, GrantError>(resolved),
        moves_can_bump(before, table, grants),
        moves_bumped(before.epochs(), after.epochs(), grants, resolved),
        0 <= i < grants.len(),
        grants[i] is Move,
        delivered_as(grants[i], resolved[i], delivered),
        kept.object() == resolved[i].object(),
        kept.epoch() <= resolved[i].epoch(),
    ensures
        after.is_live(delivered),
        !after.is_live(kept),
{
    lemma_resolve_prefix(before, table, grants, grants.len());
    assert(resolve_one(before, table, grants[i]) == Ok::<Capability, GrantError>(resolved[i]));
    let id = resolved[i].object().id();
    assert(moved_object(grants, resolved, id));
    assert(before.can_bump(resolved[i].object()));
}

/// Derive-only batches leave the source's table exactly as it was.
pub proof fn law_derive_leaves_source_untouched(table: Map<u32, Capability>, grants: Seq<Grant>)
    requires
        forall|i: int| 0 <= i < grants.len() ==> (#[trigger] grants[i]) is Derive,
    ensures
        table.remove_keys(leaving_handles(grants)) == table,
{
    assert(leaving_handles(grants) =~= Set::<u32>::empty());
    assert(table.remove_keys(leaving_handles(grants)) =~= table);
}

} // verus!
