//! SplitMix64 (Steele, Lea and Flood, OOPSLA 2014): a tiny, fully
//! deterministic generator, so a recorded seed replays identically
//! forever.
use vstd::prelude::*;

verus! {

/// The increment added to the state before each draw.
pub const GAMMA: u64 = 0x9E37_79B9_7F4A_7C15;

/// The output for a state that has just been advanced.
pub open spec fn mix(state: u64) -> u64 {
    let z1 = (state ^ (state >> 30u64)).wrapping_mul(0xBF58_476D_1CE4_E5B9u64);
    let z2 = (z1 ^ (z1 >> 27u64)).wrapping_mul(0x94D0_49BB_1331_11EBu64);
    z2 ^ (z2 >> 31u64)
}

/// The state after `k` draws from `seed`.
pub open spec fn state_after(seed: u64, k: nat) -> u64 {
    ((seed + k * GAMMA) % 0x1_0000_0000_0000_0000) as u64
}

/// The `k`-th draw (from 0) of a generator seeded with `seed`.
pub open spec fn draw(seed: u64, k: nat) -> u64 {
    mix(state_after(seed, k + 1))
}

/// Byte `j` (little-endian) of `x`.
pub open spec fn le_byte(x: u64, j: int) -> u8 {
    ((x >> (8 * j) as u64) & 0xff) as u8
}

/// The `len` bytes `fill` writes when the generator has made `k` draws
/// from `seed`: draw `k + i / 8` supplies byte `i % 8` of position `i`.
pub open spec fn fill_bytes(seed: u64, k: nat, len: nat) -> Seq<u8> {
    Seq::new(len, |i: int| le_byte(draw(seed, k + (i / 8) as nat), i % 8))
}

#[derive(Debug, Clone)]
pub struct SplitMix64 {
    state: u64,
}

impl SplitMix64 {
    pub closed spec fn state(&self) -> u64 {
        self.state
    }

    pub fn new(seed: u64) -> (r: SplitMix64)
        ensures
            r.state() == seed,
    {
        SplitMix64 { state: seed }
    }

    pub fn next_u64(&mut self) -> (r: u64)
        ensures
            final(self).state() == old(self).state().wrapping_add(GAMMA),
            r == mix(final(self).state()),
    {
        self.state = self.state.wrapping_add(GAMMA);
        let mut z = self.state;
        z = (z ^ (z >> 30)).wrapping_mul(0xBF58_476D_1CE4_E5B9);
        z = (z ^ (z >> 27)).wrapping_mul(0x94D0_49BB_1331_11EB);
        z ^ (z >> 31)
    }

    /// Uniform in `0..n` (Lemire's multiply-shift; the tiny bias for
    /// non-power-of-two `n` is irrelevant for generating test input).
    pub fn below(&mut self, n: usize) -> (r: usize)
        requires
            n > 0,
        ensures
            final(self).state() == old(self).state().wrapping_add(GAMMA),
            r < n,
            r == (mix(final(self).state()) as int * n as int) / 0x1_0000_0000_0000_0000int,
    {
        let x = self.next_u64();
        proof {
            lemma_high_half_below(x, n as u128);
        }
        let wide: u128 = x as u128 * n as u128;
        let r: u128 = wide >> 64;
        r as usize
    }

    /// True with probability `percent`/100.
    pub fn percent(&mut self, percent: u64) -> (r: bool)
        ensures
            final(self).state() == old(self).state().wrapping_add(GAMMA),
            r == (mix(final(self).state()) % 100 < percent),
    {
        self.next_u64() % 100 < percent
    }

    /// Fills `buf` with draws, eight little-endian bytes per draw.
    pub fn fill(&mut self, buf: &mut [u8])
        ensures
            final(buf)@ == fill_bytes(old(self).state(), 0, old(buf)@.len()),
    {
        let ghost seed = self.state;
        let len = buf.len();
        let mut i: usize = 0;
        while i < len
            invariant
                len == buf@.len(),
                i <= len,
                i == len || i % 8 == 0,
                self.state == state_after(seed, ((i + 7) / 8) as nat),
                forall|j: int| 0 <= j < i ==> buf@[j] == #[trigger] fill_bytes(seed, 0, len as nat)[j],
            decreases len - i,
        {
            proof {
                assert((i + 7) / 8 == i / 8) by (nonlinear_arith)
                    requires i % 8 == 0;
                lemma_state_step(seed, (i / 8) as nat);
            }
            let x = self.next_u64();
            let mut j: usize = 0;
            while j < 8 && i + j < len
                invariant
                    i < len,
                    len == buf@.len(),
                    i + j <= len,
                    j <= 8,
                    i % 8 == 0,
                    x == draw(seed, (i / 8) as nat),
                    forall|m: int| 0 <= m < i + j ==> buf@[m] == #[trigger] fill_bytes(seed, 0, len as nat)[m],
                decreases 8 - j,
            {
                let b: u8 = ((x >> (8 * j as u64)) & 0xff) as u8;
                buf[i + j] = b;
                proof {
                    assert((i + j) / 8 == i / 8 && (i + j) % 8 == j) by (nonlinear_arith)
                        requires i % 8 == 0, j < 8;
                }
                j = j + 1;
            }
            proof {
                assert(j >= 1);
                assert(j == 8 || i + j == len);
                assert((i + j + 7) / 8 == i / 8 + 1 && (j == 8 ==> (i + j) % 8 == 0)) by (nonlinear_arith)
                    requires i % 8 == 0, 1 <= j <= 8;
            }
            i = i + j;
        }
    }
}

/// The high 64 bits of a 64-by-`n` bit product are below `n`.
proof fn lemma_high_half_below(x: u64, n: u128)
    requires
        0 < n <= 0xFFFF_FFFF_FFFF_FFFF,
    ensures
        x as u128 * n <= u128::MAX,
        ((x as u128 * n) as u128) >> 64u128 < n,
        ((x as u128 * n) as u128) >> 64u128 == (x as int * n as int) / 0x1_0000_0000_0000_0000int,
{
    assert(x as u128 * n <= 0xFFFF_FFFF_FFFF_FFFFu128 * 0xFFFF_FFFF_FFFF_FFFFu128) by (nonlinear_arith)
        requires x <= 0xFFFF_FFFF_FFFF_FFFFu128, n <= 0xFFFF_FFFF_FFFF_FFFFu128;
    let p: u128 = (x as u128 * n) as u128;
    assert(p >> 64u128 == p / 0x1_0000_0000_0000_0000u128) by (bit_vector);
    assert(x as u128 * n < 0x1_0000_0000_0000_0000u128 * n) by (nonlinear_arith)
        requires x < 0x1_0000_0000_0000_0000u128, n > 0;
    assert(p / 0x1_0000_0000_0000_0000u128 < n) by (nonlinear_arith)
        requires p < 0x1_0000_0000_0000_0000u128 * n, n > 0;
}

/// One more draw advances the state by `GAMMA`, wrapping.
proof fn lemma_state_step(seed: u64, k: nat)
    ensures
        state_after(seed, k).wrapping_add(GAMMA) == state_after(seed, k + 1),
{
    assert((seed + (k + 1) * GAMMA) == (seed + k * GAMMA) + GAMMA) by (nonlinear_arith);
    vstd::arithmetic::div_mod::lemma_add_mod_noop((seed + k * GAMMA) as int, GAMMA as int, 0x1_0000_0000_0000_0000int);
}

} // verus!
