//! The three randomness streams the scheme consumes: a generic uniform
//! stream, a secret-material stream (binary / ternary samples), and an
//! encryption-noise stream (small centered samples with a proven magnitude
//! bound). Raw words come from `rand`'s `StdRng`; every shaping step on top
//! of the raw stream is verified.
use vstd::prelude::*;
use crate::{Scalar, sabs, signed};

verus! {

/// Declares rand's `StdRng` so that it can stand in the generators' fields;
/// the verifier sees nothing of its inside.
#[verifier::external_type_specification]
#[verifier::external_body]
pub struct ExStdRng(rand::rngs::StdRng);

/// Relies on rand's `SeedableRng::seed_from_u64` for `StdRng`: builds a
/// generator whose stream is a function of the seed.
#[verifier::external_body]
fn rng_from_seed(seed: u64) -> rand::rngs::StdRng {
    <rand::rngs::StdRng as rand::SeedableRng>::seed_from_u64(seed)
}

/// Relies on rand's `RngCore::next_u64` for `StdRng`; nothing is assumed of
/// the value.
#[verifier::external_body]
fn rng_next(rng: &mut rand::rngs::StdRng) -> u64 {
    rand::RngCore::next_u64(rng)
}

/// Relies on `rand::random` for an entropy-derived seed; nothing is assumed
/// of the value.
#[verifier::external_body]
fn entropy_seed() -> u64 {
    rand::random()
}

/// The generic uniform stream.
pub struct RandomGenerator {
    inner: rand::rngs::StdRng,
}

/// The stream that secret-key material is drawn from.
pub struct SecretRandomGenerator {
    inner: rand::rngs::StdRng,
}

/// The stream that encryption masks and noise are drawn from.
pub struct EncryptionRandomGenerator {
    inner: rand::rngs::StdRng,
}

/// One raw word of the stream.
fn stream_next(rng: &mut rand::rngs::StdRng) -> u64 {
    rng_next(rng)
}

/// A uniform word reduced to a bit.
fn stream_bit(rng: &mut rand::rngs::StdRng) -> (r: u64)
    ensures
        r == 0 || r == 1,
{
    let raw = rng_next(rng);
    proof {
        assert(raw & 1u64 == 0 || raw & 1u64 == 1) by (bit_vector);
    }
    raw & 1
}

/// A uniform word reduced to a ternary digit 0, 1 or `q - 1`.
fn stream_ternary(rng: &mut rand::rngs::StdRng) -> (r: u64)
    ensures
        r == 0 || r == 1 || r == u64::MAX,
{
    let raw = rng_next(rng);
    let t = raw % 3;
    if t == 2 {
        u64::MAX
    } else {
        t
    }
}

/// A centered sample of magnitude at most `1 << noise_bits`: the sum of four
/// uniform draws, recentered — a bell-shaped stand-in for the Gaussian noise
/// the scheme calls for, with a proven magnitude bound.
fn stream_noise(rng: &mut rand::rngs::StdRng, noise_bits: u64) -> (r: u64)
    requires
        noise_bits <= 60,
    ensures
        sabs(r) <= (1u64 << noise_bits),
{
    proof {
        let b = noise_bits;
        assert(1u64 << b >= 1 && (1u64 << b) <= 0x1000_0000_0000_0000u64 && (b >= 1 ==> (1u64
            << b) % 2 == 0)) by (bit_vector)
            requires
                b <= 60,
        ;
    }
    let half: u64 = 1u64 << noise_bits;
    let u: u64;
    if noise_bits == 0 {
        u = rng_next(rng) % (half * 2);
    } else {
        let quarter = half / 2;
        let u1 = rng_next(rng) % quarter;
        let u2 = rng_next(rng) % quarter;
        let u3 = rng_next(rng) % quarter;
        let u4 = rng_next(rng) % quarter;
        u = u1 + u2 + u3 + u4;
        proof {
            assert(u < 4 * quarter);
            assert(4 * quarter == 2 * half);
        }
    }
    let r = u.wrapping_sub(half);
    proof {
        assert(u < half * 2);
        if u >= half {
            assert(r == u - half);
            assert(sabs(r) <= half);
        } else {
            assert(r == u - half + 0x1_0000_0000_0000_0000);
            assert(signed(r) == u - half);
            assert(sabs(r) <= half);
        }
    }
    r
}

/// A vector of uniform words.
fn stream_uniform_vec(rng: &mut rand::rngs::StdRng, n: usize) -> (r: Vec<u64>)
    ensures
        r@.len() == n,
{
    let mut v: Vec<u64> = Vec::new();
    let mut i: usize = 0;
    while i < n
        invariant
            i <= n,
            v@.len() == i,
        decreases n - i,
    {
        let x = stream_next(rng);
        v.push(x);
        i = i + 1;
    }
    v
}

/// A vector of bits.
fn stream_binary_vec(rng: &mut rand::rngs::StdRng, n: usize) -> (r: Vec<u64>)
    ensures
        r@.len() == n,
        crate::poly::is_binary_poly(r@),
{
    let mut v: Vec<u64> = Vec::new();
    let mut i: usize = 0;
    while i < n
        invariant
            i <= n,
            v@.len() == i,
            crate::poly::is_binary_poly(v@),
        decreases n - i,
    {
        let x = stream_bit(rng);
        v.push(x);
        i = i + 1;
    }
    v
}

/// A vector of ternary digits.
fn stream_ternary_vec(rng: &mut rand::rngs::StdRng, n: usize) -> (r: Vec<u64>)
    ensures
        r@.len() == n,
        forall|i: int| 0 <= i < n ==> r@[i] == 0 || r@[i] == 1 || r@[i] == u64::MAX,
{
    let mut v: Vec<u64> = Vec::new();
    let mut i: usize = 0;
    while i < n
        invariant
            i <= n,
            v@.len() == i,
            forall|j: int| 0 <= j < i ==> v@[j] == 0 || v@[j] == 1 || v@[j] == u64::MAX,
        decreases n - i,
    {
        let x = stream_ternary(rng);
        v.push(x);
        i = i + 1;
    }
    v
}

/// A vector of centered noise samples, each of magnitude at most
/// `1 << noise_bits`.
fn stream_noise_vec(rng: &mut rand::rngs::StdRng, n: usize, noise_bits: u64) -> (r: Vec<u64>)
    requires
        noise_bits <= 60,
    ensures
        r@.len() == n,
        forall|i: int| 0 <= i < n ==> sabs(r@[i]) <= (1u64 << noise_bits),
{
    let mut v: Vec<u64> = Vec::new();
    let mut i: usize = 0;
    while i < n
        invariant
            noise_bits <= 60,
            i <= n,
            v@.len() == i,
            forall|j: int| 0 <= j < i ==> sabs(v@[j]) <= (1u64 << noise_bits),
        decreases n - i,
    {
        let x = stream_noise(rng, noise_bits);
        v.push(x);
        i = i + 1;
    }
    v
}

impl RandomGenerator {
    /// A generator seeded from the given seed, or from entropy.
    pub fn new(seed: Option<u64>) -> RandomGenerator {
        let s = match seed {
            Some(s) => s,
            None => entropy_seed(),
        };
        RandomGenerator { inner: rng_from_seed(s) }
    }

    /// One uniform word.
    pub fn next_uniform(&mut self) -> u64 {
        stream_next(&mut self.inner)
    }

    /// A uniform binary vector.
    pub fn gen_binary_vec(&mut self, n: usize) -> (r: Vec<u64>)
        ensures
            r@.len() == n,
            crate::poly::is_binary_poly(r@),
    {
        stream_binary_vec(&mut self.inner, n)
    }

    /// A uniform ternary vector over 0, 1, `q - 1`.
    pub fn gen_ternary_vec(&mut self, n: usize) -> (r: Vec<u64>)
        ensures
            r@.len() == n,
            forall|i: int| 0 <= i < n ==> r@[i] == 0 || r@[i] == 1 || r@[i] == u64::MAX,
    {
        stream_ternary_vec(&mut self.inner, n)
    }
}

impl SecretRandomGenerator {
    /// A generator seeded from the given seed, or from entropy.
    pub fn new(seed: Option<u64>) -> SecretRandomGenerator {
        let s = match seed {
            Some(s) => s,
            None => entropy_seed(),
        };
        SecretRandomGenerator { inner: rng_from_seed(s) }
    }

    /// A uniform binary vector (secret-key coefficients, selectors).
    pub fn gen_binary_vec(&mut self, n: usize) -> (r: Vec<u64>)
        ensures
            r@.len() == n,
            crate::poly::is_binary_poly(r@),
    {
        stream_binary_vec(&mut self.inner, n)
    }
}

impl EncryptionRandomGenerator {
    /// A generator seeded from the given seed, or from entropy.
    pub fn new(seed: Option<u64>) -> EncryptionRandomGenerator {
        let s = match seed {
            Some(s) => s,
            None => entropy_seed(),
        };
        EncryptionRandomGenerator { inner: rng_from_seed(s) }
    }

    /// A uniform mask vector.
    pub fn gen_uniform_vec(&mut self, n: usize) -> (r: Vec<u64>)
        ensures
            r@.len() == n,
    {
        stream_uniform_vec(&mut self.inner, n)
    }

    /// A noise vector of per-coefficient magnitude at most `1 << noise_bits`.
    pub fn gen_noise_vec(&mut self, n: usize, noise_bits: u64) -> (r: Vec<u64>)
        requires
            noise_bits <= 60,
        ensures
            r@.len() == n,
            forall|i: int| 0 <= i < n ==> sabs(r@[i]) <= (1u64 << noise_bits),
    {
        stream_noise_vec(&mut self.inner, n, noise_bits)
    }

    /// One noise sample of magnitude at most `1 << noise_bits`.
    pub fn gen_noise(&mut self, noise_bits: u64) -> (r: u64)
        requires
            noise_bits <= 60,
        ensures
            sabs(r) <= (1u64 << noise_bits),
    {
        stream_noise(&mut self.inner, noise_bits)
    }
}

} // verus!
