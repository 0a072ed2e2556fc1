//! The pipeline's data work: pure functions shared by the kernel pipeline,
//! the ambient-authority baseline and the reference computation, so any
//! difference in their output is a bug in the plumbing, not the arithmetic.
use vstd::prelude::*;

use crate::workload::rng::{fill_bytes, SplitMix64};

verus! {

/// Mixed into the seed per batch.
pub const BATCH_MIX: u64 = 0xD6E8_FEB8_6659_FD93;
/// FNV-1a's 64-bit offset basis.
pub const FNV_OFFSET: u64 = 0xCBF2_9CE4_8422_2325;
/// FNV-1a's 64-bit prime.
pub const FNV_PRIME: u64 = 0x0000_0100_0000_01B3;

/// The `len` input bytes of batch `batch`.
pub open spec fn batch_bytes(seed: u64, batch: u64, len: nat) -> Seq<u8> {
    fill_bytes(seed ^ batch.wrapping_mul(BATCH_MIX), 0, len)
}

/// Stage `stage`'s key.
pub open spec fn stage_key(stage: usize) -> u8 {
    (stage as u8).wrapping_mul(0x9Du8).wrapping_add(0x3Bu8)
}

/// Rotation of a byte three bits to the left.
pub open spec fn rotl3(a: u8) -> u8 {
    ((a << 3u8) | (a >> 5u8)) as u8
}

/// The running accumulator after `n` bytes of `s` under `key`.
pub open spec fn acc_after(key: u8, s: Seq<u8>, n: nat) -> u8
    decreases n,
{
    if n == 0 {
        key
    } else {
        rotl3(acc_after(key, s, (n - 1) as nat)) ^ s[n - 1]
    }
}

/// What `transform` makes of `s` under `key`: byte `i` becomes the
/// accumulator after `i + 1` bytes plus the key.
pub open spec fn transformed(key: u8, s: Seq<u8>) -> Seq<u8> {
    Seq::new(s.len(), |i: int| acc_after(key, s, (i + 1) as nat).wrapping_add(key))
}

/// Stages `0..n` applied in order.
pub open spec fn after_stages(s: Seq<u8>, n: nat) -> Seq<u8>
    decreases n,
{
    if n == 0 {
        s
    } else {
        transformed(stage_key((n - 1) as usize), after_stages(s, (n - 1) as nat))
    }
}

/// Stages keep the length of what they transform.
pub proof fn lemma_after_stages_len(s: Seq<u8>, n: nat)
    ensures
        after_stages(s, n).len() == s.len(),
    decreases n,
{
    if n > 0 {
        lemma_after_stages_len(s, (n - 1) as nat);
    }
}

/// FNV-1a over the first `n` bytes.
pub open spec fn fnv_prefix(s: Seq<u8>, n: nat) -> u64
    decreases n,
{
    if n == 0 {
        FNV_OFFSET
    } else {
        (fnv_prefix(s, (n - 1) as nat) ^ (s[n - 1] as u64)).wrapping_mul(FNV_PRIME)
    }
}

/// FNV-1a, 64-bit.
pub open spec fn fnv(s: Seq<u8>) -> u64 {
    fnv_prefix(s, s.len())
}

/// The checksum batch `batch` must end with after `stages` stages.
pub open spec fn reference_spec(seed: u64, batch: u64, region_size: usize, stages: usize) -> u64 {
    fnv(after_stages(batch_bytes(seed, batch, region_size as nat), stages as nat))
}

/// FNV-1a runs over the bytes first to last: the empty input hashes to the
/// offset basis, and one more byte `b` at the end xors `b` into the hash of
/// what came before and multiplies by the prime, modulo 2^64.
pub proof fn law_checksum_folds_in_order(s: Seq<u8>, b: u8)
    ensures
        fnv(Seq::<u8>::empty()) == 0xCBF2_9CE4_8422_2325u64,
        fnv(s.push(b)) == (((fnv(s) ^ (b as u64)) as nat * 0x0000_0100_0000_01B3nat) % 0x1_0000_0000_0000_0000nat) as u64,
{
    lemma_fnv_prefix_push(s, b, s.len());
}

proof fn lemma_fnv_prefix_push(s: Seq<u8>, b: u8, n: nat)
    requires
        n <= s.len(),
    ensures
        fnv_prefix(s.push(b), n) == fnv_prefix(s, n),
    decreases n,
{
    if n > 0 {
        assert(s.push(b)[n - 1] == s[n - 1]);
        lemma_fnv_prefix_push(s, b, (n - 1) as nat);
    }
}

/// A stage's transform is a running accumulator that rotates left by
/// three bits before it takes in each byte: output byte 0 is
/// `(rotl3(key) ^ s[0]) + key`, and each later output byte is
/// `(rotl3(previous output - key) ^ s[i]) + key`, all modulo 256.
pub proof fn law_transform_rotates_then_mixes(key: u8, s: Seq<u8>)
    ensures
        transformed(key, s).len() == s.len(),
        s.len() > 0 ==> transformed(key, s)[0] == (((key << 3u8) | (key >> 5u8)) as u8 ^ s[0]).wrapping_add(key),
        forall|i: int|
            0 < i < s.len() ==> {
                let prev = (#[trigger] transformed(key, s)[i - 1]).wrapping_sub(key);
                transformed(key, s)[i] == (((prev << 3u8) | (prev >> 5u8)) as u8 ^ s[i]).wrapping_add(key)
            },
{
    if s.len() > 0 {
        assert(acc_after(key, s, 1) == rotl3(acc_after(key, s, 0)) ^ s[0]);
        assert(transformed(key, s)[0] == acc_after(key, s, 1).wrapping_add(key));
    }
    assert forall|i: int| 0 < i < s.len() implies {
        let prev = (#[trigger] transformed(key, s)[i - 1]).wrapping_sub(key);
        transformed(key, s)[i] == (((prev << 3u8) | (prev >> 5u8)) as u8 ^ s[i]).wrapping_add(key)
    } by {
        let a = acc_after(key, s, i as nat);
        assert(transformed(key, s)[i - 1] == a.wrapping_add(key));
        assert(a.wrapping_add(key).wrapping_sub(key) == a);
        assert(acc_after(key, s, (i + 1) as nat) == rotl3(a) ^ s[i]);
    }
}

/// Fills `buf` with batch `batch`'s deterministic input bytes.
pub fn fill_batch(seed: u64, batch: u64, buf: &mut [u8])
    ensures
        final(buf)@ == batch_bytes(seed, batch, old(buf)@.len()),
{
    SplitMix64::new(seed ^ batch.wrapping_mul(BATCH_MIX)).fill(buf);
}

/// Stage `stage`'s in-place transform. Order-dependent (a running
/// accumulator), so applying stages out of order, twice, or to the wrong
/// batch changes the final checksum.
pub fn transform(stage: usize, buf: &mut [u8])
    ensures
        final(buf)@ == transformed(stage_key(stage), old(buf)@),
{
    let key: u8 = (stage as u8).wrapping_mul(0x9D).wrapping_add(0x3B);
    let ghost s = buf@;
    let mut acc: u8 = key;
    let mut i: usize = 0;
    while i < buf.len()
        invariant
            buf@.len() == s.len(),
            i <= s.len(),
            key == stage_key(stage),
            acc == acc_after(key, s, i as nat),
            forall|j: int| i <= j < s.len() ==> buf@[j] == s[j],
            forall|j: int| 0 <= j < i ==> buf@[j] == #[trigger] transformed(key, s)[j],
        decreases s.len() - i,
    {
        acc = ((acc << 3) | (acc >> 5)) ^ buf[i];
        buf[i] = acc.wrapping_add(key);
        i = i + 1;
    }
    proof {
        assert(buf@ =~= transformed(key, s));
    }
}

/// FNV-1a, 64-bit.
pub fn checksum(buf: &[u8]) -> (h: u64)
    ensures
        h == fnv(buf@),
{
    let mut h: u64 = FNV_OFFSET;
    let mut i: usize = 0;
    while i < buf.len()
        invariant
            i <= buf@.len(),
            h == fnv_prefix(buf@, i as nat),
        decreases buf@.len() - i,
    {
        h = (h ^ buf[i] as u64).wrapping_mul(FNV_PRIME);
        i = i + 1;
    }
    h
}

/// The expected checksum of one batch, computed directly: no processes, no
/// channels, no capabilities.
pub fn reference_checksum(seed: u64, batch: u64, region_size: usize, stages: usize) -> (h: u64)
    ensures
        h == reference_spec(seed, batch, region_size, stages),
{
    let mut buf: Vec<u8> = Vec::new();
    let mut i: usize = 0;
    while i < region_size
        invariant
            i <= region_size,
            buf@.len() == i,
        decreases region_size - i,
    {
        buf.push(0);
        i = i + 1;
    }
    fill_batch(seed, batch, buf.as_mut_slice());
    let mut stage: usize = 0;
    while stage < stages
        invariant
            stage <= stages,
            buf@ == after_stages(batch_bytes(seed, batch, region_size as nat), stage as nat),
        decreases stages - stage,
    {
        transform(stage, buf.as_mut_slice());
        stage = stage + 1;
    }
    checksum(buf.as_slice())
}

} // verus!
