//! The random number generator: xoshiro256** seeded through splitmix64.
use vstd::prelude::*;

use crate::matrix::plus_chain;
use crate::scalar::{
    cosine, deterministic, is_less, logarithm, minus, negated, num, one, pi_num, plus, root, times,
    unit, zero, Float,
};

verus! {

/// What the seeding sequence advances by.
pub const SEED_STEP: u64 = 0x9E37_79B9_7F4A_7C15;

/// The first multiplier of the seeding sequence's output function.
pub const SEED_MUL_1: u64 = 0xBF58_476D_1CE4_E5B9;

/// The second multiplier of the seeding sequence's output function.
pub const SEED_MUL_2: u64 = 0x94D0_49BB_1331_11EB;

/// The output of the seeding sequence at `z`.
pub open spec fn seed_mix(z: u64) -> u64 {
    let x = (z ^ (z >> 30)).wrapping_mul(SEED_MUL_1);
    let y = (x ^ (x >> 27)).wrapping_mul(SEED_MUL_2);
    y ^ (y >> 31)
}

/// The state that a seed gives: the next four outputs of the seeding sequence.
pub open spec fn seeded(seed: u64) -> Seq<u64> {
    let z1 = seed.wrapping_add(SEED_STEP);
    let z2 = z1.wrapping_add(SEED_STEP);
    let z3 = z2.wrapping_add(SEED_STEP);
    let z4 = z3.wrapping_add(SEED_STEP);
    seq![seed_mix(z1), seed_mix(z2), seed_mix(z3), seed_mix(z4)]
}

/// `x` with its bits rotated left by `k`, for `0 < k < 64`.
pub open spec fn rotated(x: u64, k: u64) -> u64 {
    (x << k) | (x >> ((64 - k) as u64))
}

/// The number that the generator returns in state `s`.
pub open spec fn output(s: Seq<u64>) -> u64 {
    rotated(s[1].wrapping_mul(5), 7).wrapping_mul(9)
}

/// The state that follows `s`.
pub open spec fn advanced(s: Seq<u64>) -> Seq<u64> {
    seq![
        s[0] ^ (s[3] ^ s[1]),
        s[1] ^ (s[2] ^ s[0]),
        (s[2] ^ s[0]) ^ (s[1] << 17),
        rotated(s[3] ^ s[1], 45),
    ]
}

/// The state `n` numbers after `s`.
pub open spec fn advanced_by(s: Seq<u64>, n: int) -> Seq<u64>
    decreases n,
{
    if n <= 0 {
        s
    } else {
        advanced(advanced_by(s, n - 1))
    }
}

/// The number in `[0, 1)` that the generator returns in state `s`: the upper 53 bits of the
/// output, as a fraction of `2^53`.
pub open spec fn uniform_of<F: Float>(s: Seq<u64>) -> F {
    unit(output(s) >> 11)
}

/// The normally distributed number that the generator returns in state `s`, by the Box-Muller
/// transform of two uniform numbers.
pub open spec fn gauss_of<F: Float>(s: Seq<u64>, mean: F, std: F) -> F {
    let u1 = minus(one(), uniform_of(s));
    let u2 = uniform_of(advanced(s));
    let r = root(times(negated(num(2)), logarithm(u1)));
    let theta = times(times(num(2), pi_num()), u2);
    plus(mean, times(times(std, r), cosine(theta)))
}

/// `v` with the entries `i` and `j` exchanged.
pub open spec fn exchanged<T>(v: Seq<T>, i: int, j: int) -> Seq<T> {
    v.update(i, v[j]).update(j, v[i])
}

/// The Fisher-Yates shuffle of the first `i + 1` entries: entry `i` changes places with an entry
/// up to it that the generator picks, and so on down to entry 1.
pub open spec fn shuffled<T>(v: Seq<T>, s: Seq<u64>, i: int) -> Seq<T>
    decreases i,
{
    if i <= 0 {
        v
    } else {
        shuffled(exchanged(v, i, output(s) as int % (i + 1)), advanced(s), i - 1)
    }
}

/// The first index from `i` on at which `r`, less the weights from `i` up to there, falls below
/// the weight; the last index if there is none.
pub open spec fn picked<F: Float>(weights: Seq<F>, r: F, i: int) -> int
    decreases weights.len() - i,
{
    if i >= weights.len() {
        weights.len() - 1
    } else if is_less(r, weights[i]) {
        i
    } else {
        picked(weights, minus(r, weights[i]), i + 1)
    }
}

/// The index that the generator samples in state `s`.
pub open spec fn choice_of<F: Float>(weights: Seq<F>, s: Seq<u64>) -> int {
    picked(weights, times(uniform_of(s), plus_chain(weights, zero(), weights.len() as int)), 0)
}

/// A deterministic random number generator.
pub struct Rng {
    /// The four words of state.
    pub s: [u64; 4],
}

/// The next output of the seeding sequence.
fn next_seed(z: &mut u64) -> (r: u64)
    ensures
        *final(z) == old(z).wrapping_add(SEED_STEP),
        r == seed_mix(old(z).wrapping_add(SEED_STEP)),
{
    *z = z.wrapping_add(SEED_STEP);
    let mut x: u64 = *z;
    x = (x ^ (x >> 30)).wrapping_mul(SEED_MUL_1);
    x = (x ^ (x >> 27)).wrapping_mul(SEED_MUL_2);
    x ^ (x >> 31)
}

/// Rotates the bits of `x` left by `k`.
fn rotate_left(x: u64, k: u64) -> (r: u64)
    requires
        0 < k < 64,
    ensures
        r == rotated(x, k),
{
    (x << k) | (x >> (64 - k))
}

impl Rng {
    /// A generator for a seed.
    pub fn new(seed: u64) -> (rng: Self)
        ensures
            rng.s@ == seeded(seed),
    {
        let mut z: u64 = seed;
        let a: u64 = next_seed(&mut z);
        let b: u64 = next_seed(&mut z);
        let c: u64 = next_seed(&mut z);
        let d: u64 = next_seed(&mut z);
        Rng { s: [a, b, c, d] }
    }

    /// The next 64 random bits.
    pub fn next_u64(&mut self) -> (r: u64)
        ensures
            r == output(old(self).s@),
            final(self).s@ == advanced(old(self).s@),
    {
        let s0: u64 = self.s[0];
        let s1: u64 = self.s[1];
        let s2: u64 = self.s[2];
        let s3: u64 = self.s[3];
        let result: u64 = rotate_left(s1.wrapping_mul(5), 7).wrapping_mul(9);
        let t: u64 = s1 << 17;
        let u2: u64 = s2 ^ s0;
        let u3: u64 = s3 ^ s1;
        self.s = [s0 ^ u3, s1 ^ u2, u2 ^ t, rotate_left(u3, 45)];
        result
    }

    /// Uniform in `[0, 1)`.
    pub fn uniform<F: Float>(&mut self) -> (r: F)
        ensures
            final(self).s@ == advanced(old(self).s@),
            output(old(self).s@) >> 11 < 0x20_0000_0000_0000,
            deterministic::<F>() ==> r == uniform_of::<F>(old(self).s@),
    {
        let bits: u64 = self.next_u64();
        assert(bits >> 11 < 0x20_0000_0000_0000) by (bit_vector);
        F::unit_fraction(bits >> 11)
    }

    /// Gaussian sample via Box-Muller.
    pub fn gauss<F: Float>(&mut self, mean: F, std: F) -> (r: F)
        ensures
            final(self).s@ == advanced_by(old(self).s@, 2),
            deterministic::<F>() ==> r == gauss_of(old(self).s@, mean, std),
    {
        reveal_with_fuel(advanced_by, 3);
        let u1 = F::from_usize(1).minus(self.uniform());
        let u2: F = self.uniform();
        let r = F::from_usize(2).negated().times(u1.ln()).sqrt();
        let theta = F::from_usize(2).times(F::pi()).times(u2);
        mean.plus(std.times(r).times(theta.cos()))
    }

    /// In-place Fisher-Yates shuffle.
    pub fn shuffle<T>(&mut self, v: &mut [T])
        ensures
            final(v)@ == shuffled(old(v)@, old(self).s@, old(v)@.len() - 1),
            final(self).s@ == advanced_by(old(self).s@, old(v)@.len() - 1),
    {
        let n: usize = v.len();
        if n == 0 {
            return;
        }
        let mut i: usize = n - 1;
        while i > 0
            invariant
                i < n,
                n == v.len(),
                n == old(v).len(),
                self.s@ == advanced_by(old(self).s@, n - 1 - i),
                shuffled(v@, self.s@, i as int) == shuffled(old(v)@, old(self).s@, n - 1),
            decreases i,
        {
            let ghost state = self.s@;
            let ghost before = v@;
            let bits: u64 = self.next_u64();
            let j: usize = (bits % (i as u64 + 1)) as usize;
            if j < i {
                let (lo, hi) = v.split_at_mut(i);
                std::mem::swap(&mut lo[j], &mut hi[0]);
            }
            assert(v@ =~= exchanged(before, i as int, output(state) as int % (i + 1)));
            i = i - 1;
        }
    }

    /// Sample an index proportionally to `weights`, which need not add up to one.
    pub fn choice_weighted<F: Float>(&mut self, weights: &[F]) -> (r: usize)
        requires
            weights.len() > 0,
        ensures
            final(self).s@ == advanced(old(self).s@),
            r < weights.len(),
            deterministic::<F>() ==> r == choice_of(weights@, old(self).s@),
    {
        let n: usize = weights.len();
        let mut total = F::from_usize(0);
        let mut i: usize = 0;
        while i < n
            invariant
                i <= n,
                n == weights.len(),
                deterministic::<F>() ==> total == plus_chain(weights@, zero(), i as int),
            decreases n - i,
        {
            total = total.plus(weights[i]);
            i = i + 1;
        }
        let u: F = self.uniform();
        let mut r = u.times(total);
        let ghost first = r;
        i = 0;
        while i < n
            invariant
                i <= n,
                n == weights.len(),
                self.s@ == advanced(old(self).s@),
                deterministic::<F>() ==> first == times(
                    uniform_of(old(self).s@),
                    plus_chain(weights@, zero(), n as int),
                ),
                deterministic::<F>() ==> picked(weights@, r, i as int) == picked(
                    weights@,
                    first,
                    0,
                ),
            decreases n - i,
        {
            if r.less(weights[i]) {
                return i;
            }
            r = r.minus(weights[i]);
            i = i + 1;
        }
        n - 1
    }
}

} // verus!
