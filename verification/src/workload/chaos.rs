//! The seeded chaos harness's configuration, results and operations, the
//! generator that draws each operation from a `SplitMix64` (a run is a pure
//! function of its seed, since every operation is fixed by the generator's
//! state), and the shadow model: written independently of the kernel, it
//! tracks each region's epoch, liveness and bytes and a mirror of every
//! process table, and predicts the kernel's exact answers.
use vstd::prelude::*;

use crate::capability::{CapError, Capability, Kernel, ObjectId};
use crate::memory::MemoryError;
use crate::process::transfer::{
    first_conflict, is_duplicate, lemma_first_conflict_is_real, lemma_no_first_conflict, move_conflicts,
    resolve_one, resolve_prefix, resolve_spec,
};
use crate::process::{Grant, Handle};
use crate::rights::Rights;
use crate::workload::rng::{mix, SplitMix64, GAMMA};
pub use crate::workload::harness::{run_chaos, ChaosFailure, Mismatch, World};

verus! {

broadcast use crate::rights::group_rights_bits;

/// At most this many processes take part.
pub const MAX_PROCESSES: usize = 8;

/// The number of channels.
pub const CHANNELS: usize = 3;

/// The largest region a run allocates.
pub const MAX_REGION_SIZE: usize = 32;

#[derive(Debug, Clone, Copy, PartialEq, Eq)]
pub enum Fault {
    /// Harness self-test: at the first step at or after `step` where some
    /// region can be audited, silently corrupt one byte of the model. The
    /// next sweep must catch it.
    CorruptModelAt { step: usize },
}

#[derive(Debug, Clone, Copy)]
pub struct ChaosConfig {
    pub seed: u64,
    pub steps: usize,
    pub fault: Option<Fault>,
}

#[derive(Debug, Clone, Default, PartialEq, Eq)]
pub struct ChaosSummary {
    pub seed: u64,
    pub steps: usize,
    /// Per operation kind, in name order, each kind that occurred:
    /// (succeeded, correctly rejected).
    pub outcomes: Vec<(&'static str, (u64, u64))>,
    /// Causal events recorded (sends, receives, spawns, births, locals).
    pub events: usize,
    /// Stale-capability replays the kernel correctly refused.
    pub stale_replays_refused: u64,
    /// FNV-1a over the run's log of operations and outcomes: equal for
    /// equal runs.
    pub log_hash: u64,
}

/// How a grant of a generated batch hands its capability over.
#[derive(Debug, Clone, Copy, PartialEq, Eq, Structural)]
pub enum GrantKind {
    Transfer,
    Derive(Rights),
    Move,
}

/// Which capability an access uses: the n-th handle (mod table size) in the
/// process's own table, or the n-th capability ever seen (a possibly stale
/// replay).
#[derive(Debug, Clone, Copy, PartialEq, Eq, Structural)]
pub enum Pick {
    Table(usize),
    Stash(usize),
}

/// One operation of a chaos run.
#[derive(Debug, Clone, PartialEq, Eq)]
pub enum Op {
    NewRegion { p: usize, size: usize },
    Spawn { parent: usize, grants: Vec<(usize, GrantKind)> },
    Send { p: usize, channel: usize, grants: Vec<(usize, GrantKind)> },
    Receive { p: usize, channel: usize },
    Read { p: usize, pick: Pick, regions_only: bool, offset: usize, len: usize },
    Write { p: usize, pick: Pick, regions_only: bool, offset: usize, len: usize, byte: u8 },
    Revoke { p: usize, pick: Pick },
    Destroy { p: usize, pick: Pick },
    Local { p: usize },
}

/// An operation, with its grant batches as sequences.
pub enum OpView {
    NewRegion { p: usize, size: usize },
    Spawn { parent: usize, grants: Seq<(usize, GrantKind)> },
    Send { p: usize, channel: usize, grants: Seq<(usize, GrantKind)> },
    Receive { p: usize, channel: usize },
    Read { p: usize, pick: Pick, regions_only: bool, offset: usize, len: usize },
    Write { p: usize, pick: Pick, regions_only: bool, offset: usize, len: usize, byte: u8 },
    Revoke { p: usize, pick: Pick },
    Destroy { p: usize, pick: Pick },
    Local { p: usize },
}

impl View for Op {
    type V = OpView;

    open spec fn view(&self) -> OpView {
        match self {
            Op::NewRegion { p, size } => OpView::NewRegion { p: *p, size: *size },
            Op::Spawn { parent, grants } => OpView::Spawn { parent: *parent, grants: grants@ },
            Op::Send { p, channel, grants } => OpView::Send { p: *p, channel: *channel, grants: grants@ },
            Op::Receive { p, channel } => OpView::Receive { p: *p, channel: *channel },
            Op::Read { p, pick, regions_only, offset, len } => OpView::Read {
                p: *p,
                pick: *pick,
                regions_only: *regions_only,
                offset: *offset,
                len: *len,
            },
            Op::Write { p, pick, regions_only, offset, len, byte } => OpView::Write {
                p: *p,
                pick: *pick,
                regions_only: *regions_only,
                offset: *offset,
                len: *len,
                byte: *byte,
            },
            Op::Revoke { p, pick } => OpView::Revoke { p: *p, pick: *pick },
            Op::Destroy { p, pick } => OpView::Destroy { p: *p, pick: *pick },
            Op::Local { p } => OpView::Local { p: *p },
        }
    }
}

/// The name an operation is tallied and logged under.
pub open spec fn op_name(op: OpView) -> Seq<char> {
    match op {
        OpView::NewRegion { .. } => "new_region"@,
        OpView::Spawn { .. } => "spawn"@,
        OpView::Send { .. } => "send"@,
        OpView::Receive { .. } => "receive"@,
        OpView::Read { .. } => "read"@,
        OpView::Write { .. } => "write"@,
        OpView::Revoke { .. } => "revoke"@,
        OpView::Destroy { .. } => "destroy"@,
        OpView::Local { .. } => "local"@,
    }
}

impl Op {
    pub fn name(&self) -> (r: &'static str)
        ensures
            r@ == op_name(self@),
    {
        match self {
            Op::NewRegion { .. } => "new_region",
            Op::Spawn { .. } => "spawn",
            Op::Send { .. } => "send",
            Op::Receive { .. } => "receive",
            Op::Read { .. } => "read",
            Op::Write { .. } => "write",
            Op::Revoke { .. } => "revoke",
            Op::Destroy { .. } => "destroy",
            Op::Local { .. } => "local",
        }
    }
}

/// The generator's state after one more draw.
pub open spec fn next_state(s: u64) -> u64 {
    s.wrapping_add(GAMMA)
}

/// `below(n)` from state `s`: the answer and the state after.
pub open spec fn below_spec(s: u64, n: usize) -> (usize, u64) {
    let s2 = next_state(s);
    (((mix(s2) as int * n as int) / 0x1_0000_0000_0000_0000int) as usize, s2)
}

/// `percent(p)` from state `s`: the answer and the state after.
pub open spec fn percent_spec(s: u64, p: u64) -> (bool, u64) {
    let s2 = next_state(s);
    (mix(s2) % 100 < p, s2)
}

/// `bit` when `on`, else no bit.
pub open spec fn bit_if(on: bool, bit: u32) -> u32 {
    if on {
        bit
    } else {
        0
    }
}

/// The rights `arb_rights` draws from state `s`: each of `READ`, `WRITE`,
/// `EXECUTE`, `GRANT`, `DESTROY` in turn with even odds; the bit set and the
/// state after.
pub open spec fn arb_rights_spec(s: u64) -> (u32, u64) {
    let (a, s1) = percent_spec(s, 50);
    let (b, s2) = percent_spec(s1, 50);
    let (c, s3) = percent_spec(s2, 50);
    let (d, s4) = percent_spec(s3, 50);
    let (e, s5) = percent_spec(s4, 50);
    (((((0u32 | bit_if(a, 1)) | bit_if(b, 2)) | bit_if(c, 4)) | bit_if(d, 8)) | bit_if(e, 16), s5)
}

/// Draws a set of rights, each right with even odds.
pub fn arb_rights(rng: &mut SplitMix64) -> (r: Rights)
    ensures
        r.bits() == arb_rights_spec(old(rng).state()).0,
        final(rng).state() == arb_rights_spec(old(rng).state()).1,
{
    let mut acc = Rights::NONE();
    let a = rng.percent(50);
    acc = acc | (if a { Rights::READ() } else { Rights::NONE() });
    let b = rng.percent(50);
    acc = acc | (if b { Rights::WRITE() } else { Rights::NONE() });
    let c = rng.percent(50);
    acc = acc | (if c { Rights::EXECUTE() } else { Rights::NONE() });
    let d = rng.percent(50);
    acc = acc | (if d { Rights::GRANT() } else { Rights::NONE() });
    let e = rng.percent(50);
    acc = acc | (if e { Rights::DESTROY() } else { Rights::NONE() });
    acc
}

/// `pick` from state `s`: a replay of the stash three times in ten, else a
/// handle of the process's own table.
pub open spec fn pick_spec(s: u64) -> (Pick, u64) {
    let (stash, s1) = percent_spec(s, 30);
    let (x, s2) = below_spec(s1, 65536);
    (if stash { Pick::Stash(x) } else { Pick::Table(x) }, s2)
}

fn pick(rng: &mut SplitMix64) -> (r: Pick)
    ensures
        (r, final(rng).state()) == pick_spec(old(rng).state()),
{
    if rng.percent(30) {
        Pick::Stash(rng.below(65536))
    } else {
        Pick::Table(rng.below(65536))
    }
}

/// An access's `(offset, len)` from state `s`: mostly small and plausible,
/// so successful reads and writes get exercised; sometimes wild.
pub open spec fn span_spec(s: u64) -> ((usize, usize), u64) {
    let (small, s1) = percent_spec(s, 75);
    if small {
        let (o, s2) = below_spec(s1, 4);
        let (l, s3) = below_spec(s2, 5);
        ((o, l), s3)
    } else {
        let (o, s2) = below_spec(s1, (MAX_REGION_SIZE + 8) as usize);
        let (l, s3) = below_spec(s2, 10);
        ((o, l), s3)
    }
}

fn span(rng: &mut SplitMix64) -> (r: (usize, usize))
    ensures
        (r, final(rng).state()) == span_spec(old(rng).state()),
{
    if rng.percent(75) {
        let o = rng.below(4);
        let l = rng.below(5);
        (o, l)
    } else {
        let o = rng.below(MAX_REGION_SIZE + 8);
        let l = rng.below(10);
        (o, l)
    }
}

/// One grant from state `s`: its kind, then the handle it names.
pub open spec fn grant_spec(s: u64) -> ((usize, GrantKind), u64) {
    let (k, s1) = below_spec(s, 3);
    let (kind, s2) = if k == 0 {
        (GrantKind::Transfer, s1)
    } else if k == 1 {
        let (bits, s2) = arb_rights_spec(s1);
        (GrantKind::Derive(Rights::from_bits(bits)), s2)
    } else {
        (GrantKind::Move, s1)
    };
    let (h, s3) = below_spec(s2, 65536);
    ((h, kind), s3)
}

fn grant(rng: &mut SplitMix64) -> (r: (usize, GrantKind))
    ensures
        (r, final(rng).state()) == grant_spec(old(rng).state()),
{
    let k = rng.below(3);
    let kind = if k == 0 {
        GrantKind::Transfer
    } else if k == 1 {
        GrantKind::Derive(arb_rights(rng))
    } else {
        GrantKind::Move
    };
    let h = rng.below(65536);
    (h, kind)
}

/// `k` grants in a row from state `s`.
pub open spec fn grants_from(s: u64, k: nat) -> (Seq<(usize, GrantKind)>, u64)
    decreases k,
{
    if k == 0 {
        (Seq::empty(), s)
    } else {
        let (g, s1) = grant_spec(s);
        let (rest, s2) = grants_from(s1, (k - 1) as nat);
        (seq![g] + rest, s2)
    }
}

/// A batch of fewer than four grants from state `s`.
pub open spec fn grants_spec(s: u64) -> (Seq<(usize, GrantKind)>, u64) {
    let (count, s1) = below_spec(s, 4);
    grants_from(s1, count as nat)
}

fn grants(rng: &mut SplitMix64) -> (r: Vec<(usize, GrantKind)>)
    ensures
        (r@, final(rng).state()) == grants_spec(old(rng).state()),
        r@.len() < 4,
{
    let count = rng.below(4);
    let ghost start = rng.state();
    let mut v: Vec<(usize, GrantKind)> = Vec::new();
    let mut i: usize = 0;
    while i < count
        invariant
            i <= count,
            count < 4,
            v@.len() == i,
            grants_from(start, count as nat).0 == v@ + grants_from(rng.state(), (count - i) as nat).0,
            grants_from(start, count as nat).1 == grants_from(rng.state(), (count - i) as nat).1,
        decreases count - i,
    {
        let ghost s0 = rng.state();
        let g = grant(rng);
        proof {
            let rest = grants_from(rng.state(), (count - i - 1) as nat);
            assert(grants_from(s0, (count - i) as nat) == (seq![g] + rest.0, rest.1));
            assert(v@.push(g) + rest.0 =~= v@ + (seq![g] + rest.0));
        }
        v.push(g);
        i = i + 1;
    }
    proof {
        assert(v@ + Seq::<(usize, GrantKind)>::empty() =~= v@);
    }
    v
}

/// The operation drawn from state `s` in a world of `n` processes: a
/// process, then a kind of operation (new region 6%, spawn 5%, send 18%,
/// receive 18%, read 15%, write 15%, revoke 9%, destroy 6%, local event
/// 8%), then its arguments in order.
pub open spec fn gen_spec(s: u64, n: usize) -> (OpView, u64) {
    let (p, s1) = below_spec(s, n);
    let (k, s2) = below_spec(s1, 100);
    if k <= 5 {
        let (z, s3) = below_spec(s2, MAX_REGION_SIZE);
        (OpView::NewRegion { p, size: (1 + z) as usize }, s3)
    } else if k <= 10 {
        let (g, s3) = grants_spec(s2);
        (OpView::Spawn { parent: p, grants: g }, s3)
    } else if k <= 28 {
        let (c, s3) = below_spec(s2, CHANNELS);
        let (g, s4) = grants_spec(s3);
        (OpView::Send { p, channel: c, grants: g }, s4)
    } else if k <= 46 {
        let (c, s3) = below_spec(s2, CHANNELS);
        (OpView::Receive { p, channel: c }, s3)
    } else if k <= 61 {
        let ((offset, len), s3) = span_spec(s2);
        let (pk, s4) = pick_spec(s3);
        let (wild, s5) = percent_spec(s4, 15);
        (OpView::Read { p, pick: pk, regions_only: !wild, offset, len }, s5)
    } else if k <= 76 {
        let ((offset, len), s3) = span_spec(s2);
        let (pk, s4) = pick_spec(s3);
        let (wild, s5) = percent_spec(s4, 15);
        let s6 = next_state(s5);
        (OpView::Write { p, pick: pk, regions_only: !wild, offset, len, byte: mix(s6) as u8 }, s6)
    } else if k <= 85 {
        let (pk, s3) = pick_spec(s2);
        (OpView::Revoke { p, pick: pk }, s3)
    } else if k <= 91 {
        let (pk, s3) = pick_spec(s2);
        (OpView::Destroy { p, pick: pk }, s3)
    } else {
        (OpView::Local { p }, s2)
    }
}

/// The operation is one a world of `n` processes can run.
pub open spec fn op_fits(op: OpView, n: nat) -> bool {
    match op {
        OpView::NewRegion { p, .. } => p < n,
        OpView::Spawn { parent, grants } => parent < n && grants.len() < 4,
        OpView::Send { p, channel, grants } => p < n && channel < CHANNELS && grants.len() < 4,
        OpView::Receive { p, channel } => p < n && channel < CHANNELS,
        OpView::Read { p, .. } => p < n,
        OpView::Write { p, .. } => p < n,
        OpView::Revoke { p, .. } => p < n,
        OpView::Destroy { p, .. } => p < n,
        OpView::Local { p } => p < n,
    }
}

/// Draws the next operation for a world of `n` processes. Equal generator
/// states give equal operations.
pub fn generate(rng: &mut SplitMix64, n: usize) -> (op: Op)
    requires
        n > 0,
    ensures
        (op@, final(rng).state()) == gen_spec(old(rng).state(), n),
        op_fits(op@, n as nat),
{
    let p = rng.below(n);
    let k = rng.below(100);
    if k <= 5 {
        let z = rng.below(MAX_REGION_SIZE);
        Op::NewRegion { p, size: 1 + z }
    } else if k <= 10 {
        let g = grants(rng);
        Op::Spawn { parent: p, grants: g }
    } else if k <= 28 {
        let c = rng.below(CHANNELS);
        let g = grants(rng);
        Op::Send { p, channel: c, grants: g }
    } else if k <= 46 {
        let c = rng.below(CHANNELS);
        Op::Receive { p, channel: c }
    } else if k <= 61 {
        let (offset, len) = span(rng);
        let pk = pick(rng);
        let wild = rng.percent(15);
        Op::Read { p, pick: pk, regions_only: !wild, offset, len }
    } else if k <= 76 {
        let (offset, len) = span(rng);
        let pk = pick(rng);
        let wild = rng.percent(15);
        let byte = rng.next_u64() as u8;
        Op::Write { p, pick: pk, regions_only: !wild, offset, len, byte }
    } else if k <= 85 {
        let pk = pick(rng);
        Op::Revoke { p, pick: pk }
    } else if k <= 91 {
        let pk = pick(rng);
        Op::Destroy { p, pick: pk }
    } else {
        Op::Local { p }
    }
}

/// The object a modelled capability names: a region or a channel, by its
/// position in the model.
#[derive(Debug, Clone, Copy, PartialEq, Eq, Structural)]
pub enum Obj {
    Region(usize),
    Channel(usize),
}

/// The model's view of one capability value.
#[derive(Debug, Clone, Copy, PartialEq, Eq, Structural)]
pub struct CapModel {
    pub obj: Obj,
    pub rights: Rights,
    pub epoch: u64,
}

/// The model's view of one region: its object, whether it still exists,
/// its current epoch and its bytes.
pub struct RegionModel {
    pub object: ObjectId,
    pub alive: bool,
    pub epoch: u64,
    pub bytes: Vec<u8>,
}

/// `obj` is a position the model has.
pub open spec fn obj_known(regions: Seq<RegionModel>, channels: Seq<ObjectId>, obj: Obj) -> bool {
    match obj {
        Obj::Region(r) => r < regions.len(),
        Obj::Channel(c) => c < channels.len(),
    }
}

/// The kernel object at a position of the model.
pub open spec fn model_object(regions: Seq<RegionModel>, channels: Seq<ObjectId>, obj: Obj) -> ObjectId {
    match obj {
        Obj::Region(r) => regions[r as int].object,
        Obj::Channel(c) => channels[c as int],
    }
}

/// The model's prediction of `Kernel::check`: a destroyed region is
/// unknown, a capability from an earlier epoch of its region is revoked
/// (channels are never revoked), and otherwise the rights decide.
pub open spec fn predicted_check(
    regions: Seq<RegionModel>,
    channels: Seq<ObjectId>,
    c: CapModel,
    required: Rights,
) -> Result<(), CapError> {
    let object = model_object(regions, channels, c.obj);
    match c.obj {
        Obj::Region(r) if !regions[r as int].alive => Err(CapError::UnknownObject(object)),
        Obj::Region(r) if regions[r as int].epoch != c.epoch => Err(CapError::Revoked(object)),
        _ => if !c.rights.spec_contains(required) {
            Err(CapError::InsufficientRights { object, held: c.rights, required })
        } else {
            Ok(())
        },
    }
}

/// The model's prediction of a region access: the capability check, then
/// that it names a region, then the bounds.
pub open spec fn predicted_access(
    regions: Seq<RegionModel>,
    channels: Seq<ObjectId>,
    c: CapModel,
    required: Rights,
    offset: usize,
    len: usize,
) -> Result<(), MemoryError> {
    let object = model_object(regions, channels, c.obj);
    match predicted_check(regions, channels, c, required) {
        Err(e) => Err(MemoryError::Capability(e)),
        Ok(_) => match c.obj {
            Obj::Channel(_) => Err(MemoryError::UnknownRegion(object)),
            Obj::Region(r) => {
                let size = regions[r as int].bytes@.len();
                if offset + len <= size {
                    Ok(())
                } else {
                    Err(MemoryError::OutOfBounds { object, offset, len, size: size as usize })
                }
            },
        },
    }
}

/// The model's prediction of `Kernel::check(cap, required)` for the
/// capability modelled by `c`.
pub fn predict_check(regions: &Vec<RegionModel>, channels: &Vec<ObjectId>, c: &CapModel, required: Rights) -> (r:
    Result<(), CapError>)
    requires
        obj_known(regions@, channels@, c.obj),
    ensures
        r == predicted_check(regions@, channels@, *c, required),
{
    let object = match c.obj {
        Obj::Region(r) => regions[r].object,
        Obj::Channel(ch) => channels[ch],
    };
    if let Obj::Region(r) = c.obj {
        let region = &regions[r];
        if !region.alive {
            return Err(CapError::UnknownObject(object));
        }
        if region.epoch != c.epoch {
            return Err(CapError::Revoked(object));
        }
    }
    if !c.rights.contains(required) {
        return Err(CapError::InsufficientRights { object, held: c.rights, required });
    }
    Ok(())
}

/// The model's prediction of a read or write of `len` bytes at `offset`
/// with the capability modelled by `c`.
pub fn predict_access(
    regions: &Vec<RegionModel>,
    channels: &Vec<ObjectId>,
    c: &CapModel,
    required: Rights,
    offset: usize,
    len: usize,
) -> (r: Result<(), MemoryError>)
    requires
        obj_known(regions@, channels@, c.obj),
    ensures
        r == predicted_access(regions@, channels@, *c, required, offset, len),
{
    match predict_check(regions, channels, c, required) {
        Ok(()) => {},
        Err(e) => {
            return Err(MemoryError::Capability(e));
        },
    }
    let object = match c.obj {
        Obj::Region(r) => regions[r].object,
        Obj::Channel(ch) => channels[ch],
    };
    match c.obj {
        Obj::Channel(_) => Err(MemoryError::UnknownRegion(object)),
        Obj::Region(r) => {
            let size = regions[r].bytes.len();
            match offset.checked_add(len) {
                Some(end) => if end <= size {
                    Ok(())
                } else {
                    Err(MemoryError::OutOfBounds { object, offset, len, size })
                },
                None => Err(MemoryError::OutOfBounds { object, offset, len, size }),
            }
        },
    }
}

/// The model mirrors the kernel for `cap`, modelled by `c`: same object,
/// rights and epoch; the region exists in the kernel exactly while the
/// model holds it alive, on the model's epoch; a channel is live.
pub open spec fn mirrors(
    k: Kernel,
    regions: Seq<RegionModel>,
    channels: Seq<ObjectId>,
    cap: Capability,
    c: CapModel,
) -> bool {
    let id = cap.object().id();
    &&& cap.object() == model_object(regions, channels, c.obj)
    &&& cap.rights() == c.rights
    &&& cap.epoch() == c.epoch
    &&& match c.obj {
        Obj::Region(r) => {
            &&& k.epochs().contains_key(id) <==> regions[r as int].alive
            &&& regions[r as int].alive ==> k.epochs()[id] == regions[r as int].epoch
        },
        Obj::Channel(_) => k.is_live(cap),
    }
}

/// The shadow model predicts the kernel: wherever it mirrors the kernel, its
/// prediction of a check is exactly the kernel's answer.
pub proof fn law_model_predicts_check(
    k: Kernel,
    regions: Seq<RegionModel>,
    channels: Seq<ObjectId>,
    cap: Capability,
    c: CapModel,
    required: Rights,
)
    requires
        mirrors(k, regions, channels, cap, c),
    ensures
        k.check_result(cap, required) == predicted_check(regions, channels, c, required),
{
}

/// The kernel grant a modelled grant stands for.
pub open spec fn to_grant(g: (Handle, GrantKind)) -> Grant {
    match g.1 {
        GrantKind::Transfer => Grant::Transfer(g.0),
        GrantKind::Derive(r) => Grant::Derive(g.0, r),
        GrantKind::Move => Grant::Move(g.0),
    }
}

pub open spec fn to_grants_spec(gs: Seq<(Handle, GrantKind)>) -> Seq<Grant> {
    gs.map_values(|g: (Handle, GrantKind)| to_grant(g))
}

/// The kernel grants a batch of modelled grants stands for.
pub fn to_grants(gs: &Vec<(Handle, GrantKind)>) -> (r: Vec<Grant>)
    ensures
        r@ == to_grants_spec(gs@),
{
    let mut r: Vec<Grant> = Vec::new();
    let mut i: usize = 0;
    while i < gs.len()
        invariant
            i <= gs.len(),
            r@ == to_grants_spec(gs@.take(i as int)),
        decreases gs.len() - i,
    {
        let (h, kind) = gs[i];
        let g = match kind {
            GrantKind::Transfer => Grant::Transfer(h),
            GrantKind::Derive(rights) => Grant::Derive(h, rights),
            GrantKind::Move => Grant::Move(h),
        };
        r.push(g);
        proof {
            assert(to_grants_spec(gs@.take(i + 1)) =~= to_grants_spec(gs@.take(i as int)).push(to_grant(gs@[i as int])));
        }
        i = i + 1;
    }
    proof {
        assert(gs@.take(gs.len() as int) =~= gs@);
    }
    r
}

/// What the model resolves one grant to, from the model `held` of the
/// capability under its handle: a transfer passes it on; a derivation
/// needs `GRANT` and no new rights; a move needs `DESTROY`.
pub open spec fn model_resolve_one(
    regions: Seq<RegionModel>,
    channels: Seq<ObjectId>,
    held: CapModel,
    kind: GrantKind,
) -> Option<CapModel> {
    match kind {
        GrantKind::Transfer => Some(held),
        GrantKind::Derive(r) => if predicted_check(regions, channels, held, Rights::GRANT()) is Ok
            && held.rights.spec_contains(r) {
            Some(CapModel { rights: r, ..held })
        } else {
            None
        },
        GrantKind::Move => if predicted_check(regions, channels, held, Rights::DESTROY()) is Ok {
            Some(held)
        } else {
            None
        },
    }
}

/// The model resolves the first `n` grants in order; a handle taken out
/// twice, or any refusal, rejects the batch.
pub open spec fn model_resolve_prefix(
    regions: Seq<RegionModel>,
    channels: Seq<ObjectId>,
    held: Seq<CapModel>,
    gs: Seq<(Handle, GrantKind)>,
    n: nat,
) -> Option<Seq<CapModel>>
    decreases n,
{
    if n == 0 {
        Some(Seq::empty())
    } else {
        match model_resolve_prefix(regions, channels, held, gs, (n - 1) as nat) {
            None => None,
            Some(s) => if is_duplicate(to_grants_spec(gs), n - 1) {
                None
            } else {
                match model_resolve_one(regions, channels, held[n - 1], gs[n - 1].1) {
                    Some(c) => Some(s.push(c)),
                    None => None,
                }
            },
        }
    }
}

/// Some move of the batch names an object another resolved grant names.
pub open spec fn model_conflict(gs: Seq<(Handle, GrantKind)>, resolved: Seq<CapModel>) -> bool {
    exists|i: int, j: int|
        0 <= i < gs.len() && 0 <= j < resolved.len() && i != j && gs[i].1 is Move && (#[trigger] resolved[j]).obj
            == (#[trigger] resolved[i]).obj
}

/// The model's resolution of a batch: `None` when the kernel must refuse
/// it, otherwise the modelled capabilities it resolves to.
pub open spec fn model_resolve(
    regions: Seq<RegionModel>,
    channels: Seq<ObjectId>,
    held: Seq<CapModel>,
    gs: Seq<(Handle, GrantKind)>,
) -> Option<Seq<CapModel>> {
    match model_resolve_prefix(regions, channels, held, gs, gs.len()) {
        None => None,
        Some(s) => if model_conflict(gs, s) {
            None
        } else {
            Some(s)
        },
    }
}

/// Different positions of the model stand for different kernel objects.
pub open spec fn objects_distinct(regions: Seq<RegionModel>, channels: Seq<ObjectId>) -> bool {
    forall|a: Obj, b: Obj|
        obj_known(regions, channels, a) && obj_known(regions, channels, b) && a != b ==> model_object(
            regions,
            channels,
            a,
        ) != model_object(regions, channels, b)
}

/// `c` is modelled by `m`: same object, rights and epoch.
pub open spec fn models(regions: Seq<RegionModel>, channels: Seq<ObjectId>, c: Capability, m: CapModel) -> bool {
    &&& c.object() == model_object(regions, channels, m.obj)
    &&& c.rights() == m.rights
    &&& c.epoch() == m.epoch
}

/// The model holds, for every grant of the batch, the model of the
/// capability the source's table holds under its handle, mirroring the
/// kernel.
pub open spec fn batch_mirrored(
    k: Kernel,
    regions: Seq<RegionModel>,
    channels: Seq<ObjectId>,
    table: Map<u32, Capability>,
    held: Seq<CapModel>,
    gs: Seq<(Handle, GrantKind)>,
) -> bool {
    &&& held.len() == gs.len()
    &&& objects_distinct(regions, channels)
    &&& forall|i: int|
        0 <= i < gs.len() ==> {
            &&& table.contains_key((#[trigger] gs[i]).0.0)
            &&& obj_known(regions, channels, held[i].obj)
            &&& mirrors(k, regions, channels, table[gs[i].0.0], held[i])
        }
}

proof fn lemma_model_prefix(
    k: Kernel,
    regions: Seq<RegionModel>,
    channels: Seq<ObjectId>,
    table: Map<u32, Capability>,
    held: Seq<CapModel>,
    gs: Seq<(Handle, GrantKind)>,
    n: nat,
)
    requires
        batch_mirrored(k, regions, channels, table, held, gs),
        n <= gs.len(),
    ensures
        model_resolve_prefix(regions, channels, held, gs, n) is None <==> resolve_prefix(
            k,
            table,
            to_grants_spec(gs),
            n,
        ) is Err,
        model_resolve_prefix(regions, channels, held, gs, n) matches Some(sm) ==> {
            let s = resolve_prefix(k, table, to_grants_spec(gs), n)->Ok_0;
            &&& sm.len() == n
            &&& s.len() == n
            &&& forall|i: int| 0 <= i < n ==> #[trigger] models(regions, channels, s[i], sm[i]) && obj_known(
                regions,
                channels,
                sm[i].obj,
            )
        },
    decreases n,
{
    if n > 0 {
        lemma_model_prefix(k, regions, channels, table, held, gs, (n - 1) as nat);
        let i = n - 1;
        let g = gs[i];
        let kg = to_grants_spec(gs)[i];
        assert(kg == to_grant(g));
        assert(table.contains_key(g.0.0));
        let cap = table[g.0.0];
        law_model_predicts_check(k, regions, channels, cap, held[i], Rights::GRANT());
        law_model_predicts_check(k, regions, channels, cap, held[i], Rights::DESTROY());
        if g.1 is Derive {
            cap.lemma_with_rights(g.1->Derive_0);
        }
        assert(resolve_one(k, table, kg) is Ok <==> model_resolve_one(regions, channels, held[i], g.1) is Some);
    }
}

/// The shadow model predicts a batch of grants: wherever it mirrors the
/// kernel for every capability the batch names, it rejects the batch
/// exactly when the kernel refuses it, and otherwise models every
/// capability the kernel resolves.
pub proof fn law_model_predicts_grants(
    k: Kernel,
    regions: Seq<RegionModel>,
    channels: Seq<ObjectId>,
    table: Map<u32, Capability>,
    held: Seq<CapModel>,
    gs: Seq<(Handle, GrantKind)>,
)
    requires
        batch_mirrored(k, regions, channels, table, held, gs),
    ensures
        model_resolve(regions, channels, held, gs) is None <==> resolve_spec(k, table, to_grants_spec(gs)) is Err,
        model_resolve(regions, channels, held, gs) matches Some(sm) ==> {
            let s = resolve_spec(k, table, to_grants_spec(gs))->Ok_0;
            &&& s.len() == sm.len()
            &&& forall|i: int| 0 <= i < s.len() ==> #[trigger] models(regions, channels, s[i], sm[i])
        },
{
    let n = gs.len();
    let kgs = to_grants_spec(gs);
    lemma_model_prefix(k, regions, channels, table, held, gs, n);
    if let Some(sm) = model_resolve_prefix(regions, channels, held, gs, n) {
        let s = resolve_prefix(k, table, kgs, n)->Ok_0;
        // The same objects, so the same conflicts.
        assert forall|a: int, b: int| 0 <= a < n && 0 <= b < n implies (s[a].object() == s[b].object()
            <==> sm[a].obj == sm[b].obj) by {
            assert(models(regions, channels, s[a], sm[a]));
            assert(models(regions, channels, s[b], sm[b]));
        }
        if model_conflict(gs, sm) {
            let (a, b) = choose|a: int, b: int|
                0 <= a < gs.len() && 0 <= b < sm.len() && a != b && gs[a].1 is Move && (#[trigger] sm[b]).obj
                    == (#[trigger] sm[a]).obj;
            assert(kgs[a] == to_grant(gs[a]));
            assert(move_conflicts(kgs, s, a));
            if first_conflict(kgs, s, 0) is None {
                crate::process::transfer::lemma_no_conflict(kgs, s, 0);
            }
        } else {
            assert forall|a: int, b: int|
                0 <= a < kgs.len() && 0 <= b < kgs.len() && a != b && (#[trigger] kgs[a]) is Move
                    implies (#[trigger] s[b]).object() != s[a].object() by {
                assert(kgs[a] == to_grant(gs[a]));
                assert(gs[a].1 is Move);
                if s[b].object() == s[a].object() {
                    assert(sm[b].obj == sm[a].obj);
                }
            }
            lemma_no_first_conflict(kgs, s, 0);
        }
    }
}

/// Whether a handle is among `seen`.
fn contains_handle(seen: &Vec<Handle>, h: Handle) -> (r: bool)
    ensures
        r == seen@.contains(h),
{
    let mut i: usize = 0;
    while i < seen.len()
        invariant
            i <= seen.len(),
            forall|j: int| 0 <= j < i ==> seen@[j] != h,
        decreases seen.len() - i,
    {
        if seen[i] == h {
            return true;
        }
        i = i + 1;
    }
    false
}

proof fn lemma_model_prefix_none_persists(
    regions: Seq<RegionModel>,
    channels: Seq<ObjectId>,
    held: Seq<CapModel>,
    gs: Seq<(Handle, GrantKind)>,
    n: nat,
    m: nat,
)
    requires
        n <= m,
        model_resolve_prefix(regions, channels, held, gs, n) is None,
    ensures
        model_resolve_prefix(regions, channels, held, gs, m) is None,
        m == gs.len() ==> model_resolve(regions, channels, held, gs) is None,
    decreases m - n,
{
    if n < m {
        lemma_model_prefix_none_persists(regions, channels, held, gs, n, (m - 1) as nat);
    }
}

/// A resolved prefix has one model per grant, each on the object of the
/// capability it came from.
pub proof fn lemma_model_prefix_objects(
    regions: Seq<RegionModel>,
    channels: Seq<ObjectId>,
    held: Seq<CapModel>,
    gs: Seq<(Handle, GrantKind)>,
    n: nat,
)
    requires
        n <= gs.len(),
        n <= held.len(),
        model_resolve_prefix(regions, channels, held, gs, n) is Some,
    ensures
        ({
            let s = model_resolve_prefix(regions, channels, held, gs, n)->Some_0;
            &&& s.len() == n
            &&& forall|i: int| 0 <= i < n ==> (#[trigger] s[i]).obj == held[i].obj && s[i].epoch == held[i].epoch
            &&& forall|i: int| 0 <= i < n && !(gs[i].1 is Derive) ==> #[trigger] s[i] == held[i]
            &&& forall|i: int| 0 <= i < n ==> model_resolve_one(regions, channels, held[i], gs[i].1) == Some(#[trigger] s[i])
        }),
    decreases n,
{
    if n > 0 {
        lemma_model_prefix_objects(regions, channels, held, gs, (n - 1) as nat);
    }
}

/// The model's resolution of a batch of grants, `held[i]` being the model
/// of the capability under grant `i`'s handle: `None` when the batch must
/// be refused.
fn resolve_model(
    regions: &Vec<RegionModel>,
    channels: &Vec<ObjectId>,
    held: &Vec<CapModel>,
    grants: &Vec<(Handle, GrantKind)>,
) -> (r: Option<Vec<CapModel>>)
    requires
        held@.len() == grants@.len(),
        forall|i: int| 0 <= i < held@.len() ==> obj_known(regions@, channels@, (#[trigger] held@[i]).obj),
    ensures
        r is None <==> model_resolve(regions@, channels@, held@, grants@) is None,
        r matches Some(v) ==> model_resolve(regions@, channels@, held@, grants@) == Some(v@),
{
    let ghost gs = grants@;
    let ghost kgs = to_grants_spec(gs);
    let mut seen: Vec<Handle> = Vec::new();
    let mut resolved: Vec<CapModel> = Vec::new();
    let mut i: usize = 0;
    while i < grants.len()
        invariant
            i <= grants.len(),
            held@.len() == grants@.len(),
            gs == grants@,
            kgs == to_grants_spec(gs),
            forall|j: int| 0 <= j < held@.len() ==> obj_known(regions@, channels@, (#[trigger] held@[j]).obj),
            model_resolve_prefix(regions@, channels@, held@, gs, i as nat) == Some(resolved@),
            resolved@.len() == i,
            forall|h: Handle| #[trigger] seen@.contains(h) <==> exists|j: int|
                0 <= j < i && crate::process::transfer::leaves_table(#[trigger] kgs[j])
                    && crate::process::transfer::grant_handle(kgs[j]) == h,
        decreases grants.len() - i,
    {
        let ghost i0 = i as int;
        let ghost seen_before = seen@;
        let (h, kind) = grants[i];
        let held_cap = held[i];
        proof {
            assert(kgs[i0] == to_grant(gs[i0]));
        }
        let leaves = match kind {
            GrantKind::Transfer => true,
            GrantKind::Move => true,
            GrantKind::Derive(_) => false,
        };
        if leaves {
            if contains_handle(&seen, h) {
                proof {
                    assert(is_duplicate(kgs, i0));
                    lemma_model_prefix_none_persists(regions@, channels@, held@, gs, (i + 1) as nat, gs.len());
                }
                return None;
            }
            seen.push(h);
        }
        assert(leaves ==> seen@ == seen_before.push(h));
        assert(!leaves ==> seen@ == seen_before);
        let next = match kind {
            GrantKind::Transfer => Some(held_cap),
            GrantKind::Derive(rights) => {
                if predict_check(regions, channels, &held_cap, Rights::GRANT()).is_ok() && held_cap.rights.contains(
                    rights,
                ) {
                    Some(CapModel { obj: held_cap.obj, rights, epoch: held_cap.epoch })
                } else {
                    None
                }
            },
            GrantKind::Move => {
                if predict_check(regions, channels, &held_cap, Rights::DESTROY()).is_ok() {
                    Some(held_cap)
                } else {
                    None
                }
            },
        };
        proof {
            if leaves {
                if is_duplicate(kgs, i0) {
                    let j = choose|j: int|
                        0 <= j < i0 && crate::process::transfer::leaves_table(#[trigger] kgs[j])
                            && crate::process::transfer::grant_handle(kgs[j])
                            == crate::process::transfer::grant_handle(kgs[i0]);
                    assert(seen_before.contains(h));
                }
            }
            assert(!is_duplicate(kgs, i0));
            assert(next == model_resolve_one(regions@, channels@, held@[i0], gs[i0].1));
        }
        match next {
            Some(c) => {
                resolved.push(c);
            },
            None => {
                proof {
                    lemma_model_prefix_none_persists(regions@, channels@, held@, gs, (i + 1) as nat, gs.len());
                }
                return None;
            },
        }
        i = i + 1;
        proof {
            assert forall|hh: Handle| #[trigger] seen@.contains(hh) <==> exists|j: int|
                0 <= j < i && crate::process::transfer::leaves_table(#[trigger] kgs[j])
                    && crate::process::transfer::grant_handle(kgs[j]) == hh by {
                if seen@.contains(hh) {
                    let k = choose|k: int| 0 <= k < seen@.len() && seen@[k] == hh;
                    if k < seen_before.len() {
                        assert(seen_before[k] == hh);
                    }
                    if seen_before.contains(hh) {
                        let j = choose|j: int|
                            0 <= j < i0 && crate::process::transfer::leaves_table(#[trigger] kgs[j])
                                && crate::process::transfer::grant_handle(kgs[j]) == hh;
                        assert(0 <= j < i);
                    } else {
                        assert(leaves && hh == h);
                        assert(crate::process::transfer::leaves_table(kgs[i0]));
                    }
                }
                if exists|j: int|
                    0 <= j < i && crate::process::transfer::leaves_table(#[trigger] kgs[j])
                        && crate::process::transfer::grant_handle(kgs[j]) == hh {
                    let j = choose|j: int|
                        0 <= j < i && crate::process::transfer::leaves_table(#[trigger] kgs[j])
                            && crate::process::transfer::grant_handle(kgs[j]) == hh;
                    if j < i0 {
                        assert(seen_before.contains(hh));
                        let k = choose|k: int| 0 <= k < seen_before.len() && seen_before[k] == hh;
                        assert(seen@[k] == hh);
                    } else {
                        assert(leaves);
                        assert(seen@.last() == h);
                    }
                }
            }
        }
    }
    // A move that names an object another grant names refuses the batch.
    let n = grants.len();
    let mut a: usize = 0;
    while a < n
        invariant
            a <= n,
            n == grants@.len(),
            gs == grants@,
            resolved@.len() == n,
            model_resolve_prefix(regions@, channels@, held@, gs, n as nat) == Some(resolved@),
            forall|x: int, y: int|
                0 <= x < a && 0 <= y < n && x != y && gs[x].1 is Move ==> (#[trigger] resolved@[y]).obj
                    != (#[trigger] resolved@[x]).obj,
        decreases n - a,
    {
        let is_move = match grants[a].1 {
            GrantKind::Move => true,
            _ => false,
        };
        if is_move {
            let mut b: usize = 0;
            while b < n
                invariant
                    b <= n,
                    a < n,
                    n == grants@.len(),
                    gs == grants@,
                    gs[a as int].1 is Move,
                    resolved@.len() == n,
                    model_resolve_prefix(regions@, channels@, held@, gs, n as nat) == Some(resolved@),
                    forall|y: int| 0 <= y < b && y != a ==> (#[trigger] resolved@[y]).obj != resolved@[a as int].obj,
                decreases n - b,
            {
                if b != a && resolved[b].obj == resolved[a].obj {
                    proof {
                        assert(resolved@[b as int].obj == resolved@[a as int].obj);
                        assert(model_conflict(gs, resolved@));
                    }
                    return None;
                }
                b = b + 1;
            }
        }
        a = a + 1;
    }
    proof {
        assert(!model_conflict(gs, resolved@)) by {
            if model_conflict(gs, resolved@) {
                let (x, y) = choose|x: int, y: int|
                    0 <= x < gs.len() && 0 <= y < resolved@.len() && x != y && gs[x].1 is Move && (
                    #[trigger] resolved@[y]).obj == (#[trigger] resolved@[x]).obj;
                assert(resolved@[y].obj != resolved@[x].obj);
            }
        }
    }
    Some(resolved)
}

/// The model of one process's table holds its handles in increasing order.
pub open spec fn table_sorted(t: Seq<(Handle, CapModel)>) -> bool {
    forall|i: int, j: int| 0 <= i < j < t.len() ==> (#[trigger] t[i]).0.0 < (#[trigger] t[j]).0.0
}

/// The modelled table holds handle `h`.
pub open spec fn table_has(t: Seq<(Handle, CapModel)>, h: Handle) -> bool {
    exists|i: int| 0 <= i < t.len() && (#[trigger] t[i]).0 == h
}

/// The model of the capability under handle `h`.
pub open spec fn held_of(t: Seq<(Handle, CapModel)>, h: Handle) -> CapModel {
    t[choose|i: int| 0 <= i < t.len() && (#[trigger] t[i]).0 == h].1
}

/// The models of the capabilities a batch names, grant by grant.
pub open spec fn held_models(t: Seq<(Handle, CapModel)>, gs: Seq<(Handle, GrantKind)>) -> Seq<CapModel> {
    Seq::new(gs.len(), |i: int| held_of(t, gs[i].0))
}

/// Some grant of the batch takes handle `h` out of the table.
pub open spec fn takes_out(gs: Seq<(Handle, GrantKind)>, h: Handle) -> bool {
    exists|i: int| 0 <= i < gs.len() && !((#[trigger] gs[i]).1 is Derive) && gs[i].0 == h
}

/// The modelled table once a batch has left it.
pub open spec fn table_after(t: Seq<(Handle, CapModel)>, gs: Seq<(Handle, GrantKind)>) -> Seq<(Handle, CapModel)> {
    t.filter(kept_by(gs))
}

/// An entry the batch leaves in the table.
pub open spec fn kept_by(gs: Seq<(Handle, GrantKind)>) -> spec_fn((Handle, CapModel)) -> bool {
    |e: (Handle, CapModel)| !takes_out(gs, e.0)
}

/// Some move of the batch, resolved to `res`, moves region `r`.
pub open spec fn moves_region(gs: Seq<(Handle, GrantKind)>, res: Seq<CapModel>, r: int) -> bool {
    exists|i: int| 0 <= i < gs.len() && (#[trigger] gs[i]).1 is Move && res[i].obj == Obj::Region(r as usize)
}

/// The regions once every moved region's epoch has been bumped.
pub open spec fn regions_after(
    regions: Seq<RegionModel>,
    gs: Seq<(Handle, GrantKind)>,
    res: Seq<CapModel>,
) -> Seq<RegionModel> {
    Seq::new(
        regions.len(),
        |r: int|
            if moves_region(gs, res, r) {
                RegionModel { epoch: (regions[r].epoch + 1) as u64, ..regions[r] }
            } else {
                regions[r]
            },
    )
}

/// What the batch delivers: a move's capability on its region's new epoch,
/// every other resolved capability as it is.
pub open spec fn delivered_models(
    regions: Seq<RegionModel>,
    gs: Seq<(Handle, GrantKind)>,
    res: Seq<CapModel>,
) -> Seq<CapModel> {
    Seq::new(
        res.len(),
        |i: int|
            if gs[i].1 is Move {
                CapModel { epoch: regions[res[i].obj->Region_0 as int].epoch, ..res[i] }
            } else {
                res[i]
            },
    )
}

/// The shadow model: every region, every channel's object, and every
/// process's table.
pub struct ChaosModel {
    pub regions: Vec<RegionModel>,
    pub channels: Vec<ObjectId>,
    pub tables: Vec<Vec<(Handle, CapModel)>>,
}

pub struct ChaosModelView {
    pub regions: Seq<RegionModel>,
    pub channels: Seq<ObjectId>,
    pub tables: Seq<Seq<(Handle, CapModel)>>,
}

impl View for ChaosModel {
    type V = ChaosModelView;

    open spec fn view(&self) -> ChaosModelView {
        ChaosModelView {
            regions: self.regions@,
            channels: self.channels@,
            tables: self.tables@.map_values(|t: Vec<(Handle, CapModel)>| t@),
        }
    }
}

/// Every table is in handle order and names only positions the model has.
pub open spec fn model_wf(m: ChaosModelView) -> bool {
    forall|p: int|
        0 <= p < m.tables.len() ==> {
            &&& table_sorted(#[trigger] m.tables[p])
            &&& forall|i: int| 0 <= i < m.tables[p].len() ==> obj_known(m.regions, m.channels, (#[trigger] m.tables[p][i]).1.obj)
        }
}

/// The model of `resolve_grants` and `apply_grants` on process `p`'s
/// table: `None`, with the model unchanged, when the batch must be refused;
/// otherwise the delivered models, with the batch's handles out of the table
/// and every moved region one epoch on.
pub open spec fn grants_model(m: ChaosModelView, p: int, gs: Seq<(Handle, GrantKind)>) -> (Option<Seq<CapModel>>, ChaosModelView) {
    let t = m.tables[p];
    match model_resolve(m.regions, m.channels, held_models(t, gs), gs) {
        None => (None, m),
        Some(res) => {
            let regions = regions_after(m.regions, gs, res);
            (
                Some(delivered_models(regions, gs, res)),
                ChaosModelView { regions, channels: m.channels, tables: m.tables.update(p, table_after(t, gs)) },
            )
        },
    }
}

/// A batch the model can take: every grant names a region handle of the
/// table, and every moved region's epoch can still grow.
pub open spec fn batch_ok(m: ChaosModelView, p: int, gs: Seq<(Handle, GrantKind)>) -> bool {
    forall|i: int|
        0 <= i < gs.len() ==> {
            &&& table_has(m.tables[p], (#[trigger] gs[i]).0)
            &&& held_of(m.tables[p], gs[i].0).obj is Region
            &&& gs[i].1 is Move ==> m.regions[held_of(m.tables[p], gs[i].0).obj->Region_0 as int].epoch < u64::MAX
        }
}

/// Filtering a table keeps it in handle order and keeps only its entries.
pub proof fn lemma_filter_sorted(t: Seq<(Handle, CapModel)>, pred: spec_fn((Handle, CapModel)) -> bool)
    requires
        table_sorted(t),
    ensures
        table_sorted(t.filter(pred)),
        forall|i: int| 0 <= i < t.filter(pred).len() ==> t.contains(#[trigger] t.filter(pred)[i]),
    decreases t.len(),
{
    if t.len() > 0 {
        let rest = t.drop_last();
        assert(table_sorted(rest));
        lemma_filter_sorted(rest, pred);
        let f = rest.filter(pred);
        reveal(Seq::filter);
        assert(t.filter(pred) == (if pred(t.last()) { f.push(t.last()) } else { f }));
        assert forall|i: int| 0 <= i < f.len() implies (#[trigger] f[i]).0.0 < t.last().0.0 by {
            assert(rest.contains(f[i]));
            let k = choose|k: int| 0 <= k < rest.len() && rest[k] == f[i];
            assert(t[k] == rest[k]);
        }
        assert forall|i: int| 0 <= i < t.filter(pred).len() implies t.contains(#[trigger] t.filter(pred)[i]) by {
            if i < f.len() {
                assert(rest.contains(f[i]));
                let k = choose|k: int| 0 <= k < rest.len() && rest[k] == f[i];
                assert(t[k] == rest[k]);
            } else {
                assert(t[t.len() - 1] == t.last());
            }
        }
        assert forall|i: int, j: int| 0 <= i < j < t.filter(pred).len() implies (#[trigger] t.filter(pred)[i]).0.0 < (
        #[trigger] t.filter(pred)[j]).0.0 by {
            if j < f.len() {
                assert(f[i].0.0 < f[j].0.0);
            } else {
                assert(f[i].0.0 < t.last().0.0);
            }
        }
    }
}

/// The position of handle `h` in a sorted modelled table.
pub(crate) fn find_handle(t: &Vec<(Handle, CapModel)>, h: Handle) -> (r: Option<usize>)
    requires
        table_sorted(t@),
    ensures
        r is None <==> !table_has(t@, h),
        r matches Some(i) ==> i < t@.len() && t@[i as int].0 == h && t@[i as int].1 == held_of(t@, h),
{
    let mut i: usize = 0;
    while i < t.len()
        invariant
            i <= t.len(),
            table_sorted(t@),
            forall|j: int| 0 <= j < i ==> t@[j].0 != h,
        decreases t.len() - i,
    {
        if t[i].0 == h {
            proof {
                assert(t@[i as int].0 == h);
                let c = choose|c: int| 0 <= c < t@.len() && (#[trigger] t@[c]).0 == h;
                if c < i {
                    assert(t@[c].0 != h);
                } else if c > i {
                    assert(t@[i as int].0.0 < t@[c].0.0);
                }
            }
            return Some(i);
        }
        i = i + 1;
    }
    None
}

/// Whether some grant of the batch takes handle `h` out of the table.
fn takes_out_exec(gs: &Vec<(Handle, GrantKind)>, h: Handle) -> (r: bool)
    ensures
        r == takes_out(gs@, h),
{
    let mut i: usize = 0;
    while i < gs.len()
        invariant
            i <= gs.len(),
            forall|j: int| 0 <= j < i ==> !(!((#[trigger] gs@[j]).1 is Derive) && gs@[j].0 == h),
        decreases gs.len() - i,
    {
        let leaves = match gs[i].1 {
            GrantKind::Derive(_) => false,
            _ => true,
        };
        if leaves && gs[i].0 == h {
            return true;
        }
        i = i + 1;
    }
    false
}

impl ChaosModel {
    pub open spec fn wf(&self) -> bool {
        model_wf(self@)
    }

    /// The model of `resolve_grants` followed by `apply_grants` for a batch
    /// from process `p`: `None`, changing nothing, where the batch must be
    /// refused; otherwise the models of the delivered capabilities, having
    /// taken the batch's handles out of `p`'s table and bumped the epoch of
    /// every moved region.
    pub fn apply_grants_model(&mut self, p: usize, grants: &Vec<(Handle, GrantKind)>) -> (r: Option<
        Vec<CapModel>,
    >)
        requires
            old(self).wf(),
            p < old(self).tables@.len(),
            batch_ok(old(self)@, p as int, grants@),
        ensures
            final(self).wf(),
            final(self).regions@.len() == old(self).regions@.len(),
            final(self).channels@ == old(self).channels@,
            final(self).tables@.len() == old(self).tables@.len(),
            r matches Some(v) ==> forall|i: int| 0 <= i < v@.len() ==> obj_known(final(self).regions@, final(self).channels@, (#[trigger] v@[i]).obj),
            final(self)@ == grants_model(old(self)@, p as int, grants@).1,
            r is None <==> grants_model(old(self)@, p as int, grants@).0 is None,
            r matches Some(v) ==> grants_model(old(self)@, p as int, grants@).0 == Some(v@),
    {
        let ghost m0 = self@;
        let ghost gs = grants@;
        let ghost t0 = self.tables@[p as int]@;
        proof {
            assert(m0.tables[p as int] == t0);
        }
        let mut held: Vec<CapModel> = Vec::new();
        let mut i: usize = 0;
        while i < grants.len()
            invariant
                i <= grants.len(),
                self@ == m0,
                gs == grants@,
                p < self.tables@.len(),
                t0 == self.tables@[p as int]@,
                model_wf(m0),
                batch_ok(m0, p as int, gs),
                held@.len() == i,
                forall|j: int| 0 <= j < i ==> #[trigger] held@[j] == held_of(t0, gs[j].0),
            decreases grants.len() - i,
        {
            assert(table_sorted(m0.tables[p as int]));
            let idx = find_handle(&self.tables[p], grants[i].0);
            assert(table_has(t0, gs[i as int].0));
            let k = match idx {
                Some(k) => k,
                None => 0,
            };
            held.push(self.tables[p][k].1);
            i = i + 1;
        }
        let ghost hm = held_models(t0, gs);
        proof {
            assert(held@ =~= hm);
            assert forall|j: int| 0 <= j < held@.len() implies obj_known(self.regions@, self.channels@, (#[trigger] held@[j]).obj) by {
                let c = choose|c: int| 0 <= c < t0.len() && (#[trigger] t0[c]).0 == gs[j].0;
                assert(m0.tables[p as int][c] == t0[c]);
            }
        }
        let res = resolve_model(&self.regions, &self.channels, &held, grants);
        let mut resolved = match res {
            None => {
                return None;
            },
            Some(v) => v,
        };
        let ghost res0 = resolved@;
        proof {
            lemma_model_prefix_objects(m0.regions, m0.channels, hm, gs, gs.len());
            assert(!model_conflict(gs, res0));
        }
        // Every moved region one epoch on.
        let mut i: usize = 0;
        while i < grants.len()
            invariant
                i <= grants.len(),
                gs == grants@,
                resolved@ == res0,
                res0.len() == gs.len(),
                hm.len() == gs.len(),
                forall|j: int| 0 <= j < gs.len() ==> (#[trigger] res0[j]).obj == hm[j].obj,
                !model_conflict(gs, res0),
                batch_ok(m0, p as int, gs),
                hm == held_models(t0, gs),
                t0 == m0.tables[p as int],
                self.channels@ == m0.channels,
                self.tables@.map_values(|t: Vec<(Handle, CapModel)>| t@) == m0.tables,
                model_wf(m0),
                p < m0.tables.len(),
                self.regions@.len() == m0.regions.len(),
                forall|r: int|
                    0 <= r < m0.regions.len() ==> #[trigger] self.regions@[r] == (if exists|j: int|
                        0 <= j < i && (#[trigger] gs[j]).1 is Move && res0[j].obj == Obj::Region(r as usize) {
                        RegionModel { epoch: (m0.regions[r].epoch + 1) as u64, ..m0.regions[r] }
                    } else {
                        m0.regions[r]
                    }),
            decreases grants.len() - i,
        {
            let ghost before = self.regions@;
            let ghost i0 = i as int;
            let ghost mut moved: int = -1;
            let is_move = match grants[i].1 {
                GrantKind::Move => true,
                _ => false,
            };
            assert(is_move == (gs[i0].1 is Move));
            if is_move {
                let r = match resolved[i].obj {
                    Obj::Region(r) => r,
                    Obj::Channel(c) => c,
                };
                proof {
                    assert(hm[i as int] == held_of(t0, gs[i as int].0));
                    assert(res0[i as int].obj == Obj::Region(r));
                    assert forall|j: int| 0 <= j < i && (#[trigger] gs[j]).1 is Move implies res0[j].obj != Obj::Region(r) by {
                        assert(res0[j].obj != res0[i as int].obj);
                    }
                    let c = choose|c: int| 0 <= c < t0.len() && (#[trigger] t0[c]).0 == gs[i as int].0;
                    assert(obj_known(m0.regions, m0.channels, m0.tables[p as int][c].1.obj));
                }
                proof {
                    if exists|j: int| 0 <= j < i && (#[trigger] gs[j]).1 is Move && res0[j].obj == Obj::Region(r as usize) {
                        let j = choose|j: int| 0 <= j < i && (#[trigger] gs[j]).1 is Move && res0[j].obj == Obj::Region(r as usize);
                        assert(res0[j].obj != res0[i as int].obj);
                    }
                    assert(before[r as int] == m0.regions[r as int]);
                }
                let mut reg = self.regions.remove(r);
                reg.epoch = reg.epoch + 1;
                self.regions.insert(r, reg);
                proof {
                    assert(self.regions@ =~= before.update(r as int, RegionModel { epoch: (before[r as int].epoch + 1) as u64, ..before[r as int] }));
                    moved = r as int;
                }
            }
            i = i + 1;
            proof {
                assert forall|r: int| 0 <= r < m0.regions.len() implies #[trigger] self.regions@[r] == (if exists|j: int|
                    0 <= j < i && (#[trigger] gs[j]).1 is Move && res0[j].obj == Obj::Region(r as usize) {
                    RegionModel { epoch: (m0.regions[r].epoch + 1) as u64, ..m0.regions[r] }
                } else {
                    m0.regions[r]
                }) by {
                    if gs[i0].1 is Move && res0[i0].obj == Obj::Region(r as usize) {
                        assert(exists|j: int| 0 <= j < i && (#[trigger] gs[j]).1 is Move && res0[j].obj == Obj::Region(r as usize));
                        if exists|j: int| 0 <= j < i0 && (#[trigger] gs[j]).1 is Move && res0[j].obj == Obj::Region(r as usize) {
                            let j = choose|j: int| 0 <= j < i0 && (#[trigger] gs[j]).1 is Move && res0[j].obj == Obj::Region(r as usize);
                            assert(res0[j].obj != res0[i0].obj);
                        }
                        assert(before[r] == m0.regions[r]);
                        assert(self.regions.len() == self.regions@.len());
                        assert(moved == r);
                        assert(self.regions@[r] == RegionModel { epoch: (before[r].epoch + 1) as u64, ..before[r] });
                    } else {
                        if exists|j: int| 0 <= j < i && (#[trigger] gs[j]).1 is Move && res0[j].obj == Obj::Region(r as usize) {
                            let j = choose|j: int| 0 <= j < i && (#[trigger] gs[j]).1 is Move && res0[j].obj == Obj::Region(r as usize);
                            assert(j != i0);
                            assert(exists|j: int| 0 <= j < i0 && (#[trigger] gs[j]).1 is Move && res0[j].obj == Obj::Region(r as usize));
                        }
                        if exists|j: int| 0 <= j < i0 && (#[trigger] gs[j]).1 is Move && res0[j].obj == Obj::Region(r as usize) {
                            let j = choose|j: int| 0 <= j < i0 && (#[trigger] gs[j]).1 is Move && res0[j].obj == Obj::Region(r as usize);
                            assert(exists|j: int| 0 <= j < i && (#[trigger] gs[j]).1 is Move && res0[j].obj == Obj::Region(r as usize));
                        }
                        assert(self.regions@[r] == before[r]);
                    }
                }
            }
        }
        let ghost regions1 = regions_after(m0.regions, gs, res0);
        proof {
            assert(self.regions@ =~= regions1);
        }
        // Each move delivers its capability on the region's new epoch.
        let mut i: usize = 0;
        while i < grants.len()
            invariant
                i <= grants.len(),
                gs == grants@,
                res0.len() == gs.len(),
                resolved@.len() == gs.len(),
                self.regions@ == regions1,
                regions1.len() == m0.regions.len(),
                forall|j: int| 0 <= j < gs.len() ==> (#[trigger] res0[j]).obj == hm[j].obj,
                hm == held_models(t0, gs),
                batch_ok(m0, p as int, gs),
                t0 == m0.tables[p as int],
                model_wf(m0),
                p < m0.tables.len(),
                forall|j: int| 0 <= j < i ==> #[trigger] resolved@[j] == delivered_models(regions1, gs, res0)[j],
                forall|j: int| i <= j < gs.len() ==> #[trigger] resolved@[j] == res0[j],
            decreases grants.len() - i,
        {
            let is_move = match grants[i].1 {
                GrantKind::Move => true,
                _ => false,
            };
            if is_move {
                let r = match resolved[i].obj {
                    Obj::Region(r) => r,
                    Obj::Channel(c) => c,
                };
                proof {
                    assert(hm[i as int] == held_of(t0, gs[i as int].0));
                    let c = choose|c: int| 0 <= c < t0.len() && (#[trigger] t0[c]).0 == gs[i as int].0;
                    assert(obj_known(m0.regions, m0.channels, m0.tables[p as int][c].1.obj));
                }
                let c = resolved[i];
                resolved.set(i, CapModel { obj: c.obj, rights: c.rights, epoch: self.regions[r].epoch });
            }
            i = i + 1;
        }
        proof {
            assert(resolved@ =~= delivered_models(regions1, gs, res0));
            assert forall|j: int| 0 <= j < resolved@.len() implies obj_known(self.regions@, self.channels@, (#[trigger] resolved@[j]).obj) by {
                assert(hm[j] == held_of(t0, gs[j].0));
                let c = choose|c: int| 0 <= c < t0.len() && (#[trigger] t0[c]).0 == gs[j].0;
                assert(obj_known(m0.regions, m0.channels, m0.tables[p as int][c].1.obj));
            }
        }
        // The batch's handles leave the table.
        let ghost keep = kept_by(gs);
        let mut nt: Vec<(Handle, CapModel)> = Vec::new();
        let mut j: usize = 0;
        while j < self.tables[p].len()
            invariant
                j <= self.tables@[p as int]@.len(),
                p < self.tables@.len(),
                self.tables@[p as int]@ == t0,
                gs == grants@,
                keep == kept_by(gs),
                nt@ == t0.take(j as int).filter(keep),
            decreases self.tables@[p as int]@.len() - j,
        {
            let e = self.tables[p][j];
            let out = takes_out_exec(grants, e.0);
            proof {
                assert(t0.take(j + 1).drop_last() =~= t0.take(j as int));
                assert(t0.take(j + 1).last() == e);
                assert(keep(e) == !out);
                reveal(Seq::filter);
                assert(t0.take(j + 1).filter(keep) == (if keep(e) {
                    t0.take(j as int).filter(keep).push(e)
                } else {
                    t0.take(j as int).filter(keep)
                }));
            }
            if !out {
                nt.push(e);
            }
            j = j + 1;
        }
        proof {
            assert(t0.take(t0.len() as int) =~= t0);
            lemma_filter_sorted(t0, keep);
        }
        self.tables.set(p, nt);
        proof {
            let m1 = self@;
            let expect = grants_model(m0, p as int, gs).1;
            assert(m1.tables =~= m0.tables.update(p as int, table_after(t0, gs)));
            assert(m1.regions == regions1);
            assert forall|q: int| 0 <= q < m1.tables.len() implies {
                &&& table_sorted(#[trigger] m1.tables[q])
                &&& forall|i: int| 0 <= i < m1.tables[q].len() ==> obj_known(m1.regions, m1.channels, (#[trigger] m1.tables[q][i]).1.obj)
            } by {
                if q == p {
                    assert forall|i: int| 0 <= i < m1.tables[q].len() implies obj_known(m1.regions, m1.channels, (#[trigger] m1.tables[q][i]).1.obj) by {
                        assert(t0.contains(m1.tables[q][i]));
                        let k = choose|k: int| 0 <= k < t0.len() && t0[k] == m1.tables[q][i];
                        assert(m0.tables[p as int][k] == t0[k]);
                    }
                } else {
                    assert(m1.tables[q] == m0.tables[q]);
                }
            }
        }
        Some(resolved)
    }
}


/// The shadow model predicts a batch and what it delivers: wherever it
/// mirrors the kernel for every capability the batch names, it refuses the
/// batch exactly when the kernel's resolution fails, and otherwise every
/// capability the kernel delivers (a move's reissued one epoch on) is
/// modelled by what the model delivers, over the model's regions after the
/// batch.
pub proof fn law_model_predicts_delivery(
    k: Kernel,
    m: ChaosModelView,
    p: int,
    table: Map<u32, Capability>,
    gs: Seq<(Handle, GrantKind)>,
    delivered: Seq<Capability>,
)
    requires
        model_wf(m),
        0 <= p < m.tables.len(),
        batch_ok(m, p, gs),
        batch_mirrored(k, m.regions, m.channels, table, held_models(m.tables[p], gs), gs),
        resolve_spec(k, table, to_grants_spec(gs)) is Ok ==> {
            let s = resolve_spec(k, table, to_grants_spec(gs))->Ok_0;
            &&& delivered.len() == gs.len()
            &&& forall|i: int| 0 <= i < gs.len() ==> crate::process::transfer::delivered_as(
                #[trigger] to_grants_spec(gs)[i],
                s[i],
                delivered[i],
            )
        },
    ensures
        grants_model(m, p, gs).0 is None <==> resolve_spec(k, table, to_grants_spec(gs)) is Err,
        grants_model(m, p, gs).0 matches Some(dm) ==> {
            &&& dm.len() == delivered.len()
            &&& forall|i: int| 0 <= i < dm.len() ==> #[trigger] models(
                grants_model(m, p, gs).1.regions,
                m.channels,
                delivered[i],
                dm[i],
            )
        },
{
    let held = held_models(m.tables[p], gs);
    law_model_predicts_grants(k, m.regions, m.channels, table, held, gs);
    if let Some(sm) = model_resolve(m.regions, m.channels, held, gs) {
        lemma_model_prefix_objects(m.regions, m.channels, held, gs, gs.len());
        let s = resolve_spec(k, table, to_grants_spec(gs))->Ok_0;
        let regions1 = regions_after(m.regions, gs, sm);
        let dm = delivered_models(regions1, gs, sm);
        assert forall|i: int| 0 <= i < dm.len() implies #[trigger] models(regions1, m.channels, delivered[i], dm[i]) by {
            assert(models(m.regions, m.channels, s[i], sm[i]));
            assert(to_grants_spec(gs)[i] == to_grant(gs[i]));
            assert(held[i] == held_of(m.tables[p], gs[i].0));
            assert(obj_known(m.regions, m.channels, held[i].obj));
            if gs[i].1 is Move {
                let r = sm[i].obj->Region_0 as int;
                assert(moves_region(gs, sm, r));
                assert(model_resolve_one(m.regions, m.channels, held[i], gs[i].1) == Some(sm[i]));
            }
        }
    }
}


/// The registry holds region `c`'s bytes exactly while the model has it
/// alive, and nothing under a channel's object.
pub open spec fn bytes_mirrored(
    mem_regions: Map<u64, Seq<u8>>,
    regions: Seq<RegionModel>,
    cap: Capability,
    c: CapModel,
) -> bool {
    match c.obj {
        Obj::Region(r) => {
            &&& mem_regions.contains_key(cap.object().id()) <==> regions[r as int].alive
            &&& regions[r as int].alive ==> mem_regions[cap.object().id()] == regions[r as int].bytes@
        },
        Obj::Channel(_) => !mem_regions.contains_key(cap.object().id()),
    }
}

/// The shadow model predicts every read and write: wherever it mirrors the
/// kernel for the capability and the registry for the region's bytes, its
/// prediction is the registry's exact answer, error and fields included.
pub proof fn law_model_predicts_access(
    k: Kernel,
    mem_regions: Map<u64, Seq<u8>>,
    regions: Seq<RegionModel>,
    channels: Seq<ObjectId>,
    cap: Capability,
    c: CapModel,
    required: Rights,
    offset: usize,
    len: usize,
)
    requires
        mirrors(k, regions, channels, cap, c),
        bytes_mirrored(mem_regions, regions, cap, c),
    ensures
        crate::memory::access_check(k, mem_regions, cap, required, offset, len) == predicted_access(
            regions,
            channels,
            c,
            required,
            offset,
            len,
        ),
{
    law_model_predicts_check(k, regions, channels, cap, c, required);
}

/// The shadow model predicts every destruction of a region: wherever it
/// mirrors the kernel and the registry, the registry answers exactly the
/// model's capability check, as a memory error.
pub proof fn law_model_predicts_destroy(
    k: Kernel,
    mem_regions: Map<u64, Seq<u8>>,
    regions: Seq<RegionModel>,
    channels: Seq<ObjectId>,
    cap: Capability,
    c: CapModel,
)
    requires
        mirrors(k, regions, channels, cap, c),
        bytes_mirrored(mem_regions, regions, cap, c),
        c.obj is Region,
    ensures
        (match k.check_result(cap, Rights::DESTROY()) {
            Err(e) => Err(MemoryError::Capability(e)),
            Ok(_) => if !mem_regions.contains_key(cap.object().id()) {
                Err(MemoryError::UnknownRegion(cap.object()))
            } else {
                Ok(())
            },
        }) == (match predicted_check(regions, channels, c, Rights::DESTROY()) {
            Err(e) => Err(MemoryError::Capability(e)),
            Ok(_) => Ok::<(), MemoryError>(()),
        }),
{
    law_model_predicts_check(k, regions, channels, cap, c, Rights::DESTROY());
}


/// The shadow model follows the kernel through an accepted batch of grants:
/// wherever it mirrors the kernel for every capability the batch names,
/// every capability it mirrored before it still mirrors once the kernel has
/// bumped the epochs of the moved objects and the model those of the moved
/// regions; and where the source's table held exactly the mirror's
/// handles, it still does once the batch's handles have left both.
pub proof fn law_model_follows_grants(
    k: Kernel,
    after: Kernel,
    m: ChaosModelView,
    p: int,
    table: Map<u32, Capability>,
    gs: Seq<(Handle, GrantKind)>,
    cap: Capability,
    c: CapModel,
)
    requires
        model_wf(m),
        0 <= p < m.tables.len(),
        batch_ok(m, p, gs),
        batch_mirrored(k, m.regions, m.channels, table, held_models(m.tables[p], gs), gs),
        resolve_spec(k, table, to_grants_spec(gs)) is Ok,
        crate::process::transfer::moves_bumped(
            k.epochs(),
            after.epochs(),
            to_grants_spec(gs),
            resolve_spec(k, table, to_grants_spec(gs))->Ok_0,
        ),
        mirrors(k, m.regions, m.channels, cap, c),
        obj_known(m.regions, m.channels, c.obj),
    ensures
        mirrors(after, grants_model(m, p, gs).1.regions, grants_model(m, p, gs).1.channels, cap, c),
        (forall|h: u32| #[trigger] table.contains_key(h) <==> table_has(m.tables[p], Handle(h))) ==> forall|h: u32|
            #[trigger] table.remove_keys(crate::process::transfer::leaving_handles(to_grants_spec(gs))).contains_key(h)
                <==> table_has(grants_model(m, p, gs).1.tables[p], Handle(h)),
{
    broadcast use vstd::seq_lib::group_filter_ensures;

    let kgs = to_grants_spec(gs);
    let held = held_models(m.tables[p], gs);
    law_model_predicts_grants(k, m.regions, m.channels, table, held, gs);
    let res = model_resolve(m.regions, m.channels, held, gs)->Some_0;
    let s = resolve_spec(k, table, kgs)->Ok_0;
    lemma_model_prefix_objects(m.regions, m.channels, held, gs, gs.len());
    let m2 = grants_model(m, p, gs).1;
    let regions2 = m2.regions;
    assert(regions2 == regions_after(m.regions, gs, res));
    // The kernel moves an object exactly when the model moves its region.
    assert forall|x: usize| x < m.regions.len() implies crate::process::transfer::moved_object(kgs, s, m.regions[x as int].object.id())
        == #[trigger] moves_region(gs, res, x as int) by {
        if crate::process::transfer::moved_object(kgs, s, m.regions[x as int].object.id()) {
            let i = choose|i: int| 0 <= i < kgs.len() && (#[trigger] kgs[i]) is Move && s[i].object().id() == m.regions[x as int].object.id();
            assert(kgs[i] == to_grant(gs[i]));
            assert(models(m.regions, m.channels, s[i], res[i]));
            assert(held[i] == held_of(m.tables[p], gs[i].0));
            assert(obj_known(m.regions, m.channels, held[i].obj));
            let y = res[i].obj->Region_0;
            if y != x {
                assert(obj_known(m.regions, m.channels, Obj::Region(x)));
                assert(model_object(m.regions, m.channels, Obj::Region(y)) != model_object(m.regions, m.channels, Obj::Region(x)));
                m.regions[y as int].object.lemma_id_injective(m.regions[x as int].object);
            }
            assert(res[i].obj == Obj::Region((x as int) as usize));
            assert(moves_region(gs, res, x as int));
        }
        if moves_region(gs, res, x as int) {
            let i = choose|i: int| 0 <= i < gs.len() && (#[trigger] gs[i]).1 is Move && res[i].obj == Obj::Region((x as int) as usize);
            assert(kgs[i] == to_grant(gs[i]));
            assert(models(m.regions, m.channels, s[i], res[i]));
            assert(crate::process::transfer::moved_object(kgs, s, m.regions[x as int].object.id()));
        }
    }
    match c.obj {
        Obj::Region(x) => {
            assert(moves_region(gs, res, x as int) == crate::process::transfer::moved_object(kgs, s, m.regions[x as int].object.id()));
            assert(regions2[x as int].object == m.regions[x as int].object);
            assert(after.epochs().dom() == k.epochs().dom());
        },
        Obj::Channel(y) => {
            let id = m.channels[y as int].id();
            if crate::process::transfer::moved_object(kgs, s, id) {
                let i = choose|i: int| 0 <= i < kgs.len() && (#[trigger] kgs[i]) is Move && s[i].object().id() == id;
                assert(kgs[i] == to_grant(gs[i]));
                assert(models(m.regions, m.channels, s[i], res[i]));
                assert(held[i] == held_of(m.tables[p], gs[i].0));
                let r = res[i].obj->Region_0;
                assert(obj_known(m.regions, m.channels, Obj::Region(r)));
                assert(model_object(m.regions, m.channels, Obj::Region(r)) != model_object(m.regions, m.channels, Obj::Channel(y)));
                m.regions[r as int].object.lemma_id_injective(m.channels[y as int]);
            }
            assert(after.epochs().contains_key(id) == k.epochs().contains_key(id));
        },
    }
    // The handles leaving the kernel's table are the ones leaving the model's.
    if forall|h: u32| #[trigger] table.contains_key(h) <==> table_has(m.tables[p], Handle(h)) {
        let t = m.tables[p];
        assert(m2.tables[p] == table_after(t, gs));
        assert(table_sorted(m.tables[p]));
        lemma_filter_sorted(t, kept_by(gs));
        assert forall|h: u32| #[trigger] table.remove_keys(crate::process::transfer::leaving_handles(kgs)).contains_key(h)
            <==> table_has(m2.tables[p], Handle(h)) by {
            assert(crate::process::transfer::leaving_handles(kgs).contains(h) == takes_out(gs, Handle(h))) by {
                if crate::process::transfer::leaving_handles(kgs).contains(h) {
                    let i = choose|i: int|
                        0 <= i < kgs.len() && crate::process::transfer::leaves_table(#[trigger] kgs[i])
                            && crate::process::transfer::grant_handle(kgs[i]).0 == h;
                    assert(kgs[i] == to_grant(gs[i]));
                    assert(gs[i].0 == Handle(h));
                }
                if takes_out(gs, Handle(h)) {
                    let i = choose|i: int| 0 <= i < gs.len() && !((#[trigger] gs[i]).1 is Derive) && gs[i].0 == Handle(h);
                    assert(kgs[i] == to_grant(gs[i]));
                    assert(crate::process::transfer::leaves_table(kgs[i]) && crate::process::transfer::grant_handle(kgs[i]).0 == h);
                }
            }
            if table_has(m2.tables[p], Handle(h)) {
                let i = choose|i: int| 0 <= i < m2.tables[p].len() && (#[trigger] m2.tables[p][i]).0 == Handle(h);
                assert(kept_by(gs)(m2.tables[p][i]));
                assert(t.contains(m2.tables[p][i]));
                let j = choose|j: int| 0 <= j < t.len() && t[j] == m2.tables[p][i];
                assert(table_has(t, Handle(h)));
            }
            if table.contains_key(h) && !takes_out(gs, Handle(h)) {
                assert(table_has(t, Handle(h)));
                let j = choose|j: int| 0 <= j < t.len() && (#[trigger] t[j]).0 == Handle(h);
                assert(kept_by(gs)(t[j]));
                assert(t.filter(kept_by(gs)).contains(t[j]));
                let i = choose|i: int| 0 <= i < m2.tables[p].len() && m2.tables[p][i] == t[j];
                assert(m2.tables[p][i].0 == Handle(h));
            }
        }
    }
}

} // verus!
