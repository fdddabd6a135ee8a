//! Core of a multi-party fully homomorphic encryption scheme with gate
//! bootstrapping: negacyclic ring arithmetic over `Z_{2^64}`, LWE / RLWE /
//! RGSW ciphertexts, shared-mask public keys, a homomorphic indicator that
//! lifts per-party bit encryptions into a Hamming-weight selector, and the
//! blind-rotation loop that refreshes a ciphertext through a distributed
//! bootstrapping key.
use vstd::prelude::*;

pub mod poly;
pub mod rng;
pub mod lwe;
pub mod rgsw;
pub mod rlwe;

verus! {

/// Ciphertext scalars live in `Z_q` with `q = 2^64`, carried by `u64`
/// wrapping arithmetic.
pub type Scalar = u64;
/// Signed reinterpretation of a [`Scalar`], used for noise measurement.
pub type SignedScalar = i64;

/// The modulus `q = 2^64` as a mathematical integer.
pub open spec fn spec_q() -> int {
    0x1_0000_0000_0000_0000
}

/// Wrapping addition in `Z_q`.
pub open spec fn wadd(a: Scalar, b: Scalar) -> Scalar {
    ((a + b) % spec_q()) as Scalar
}

/// Wrapping subtraction in `Z_q`.
pub open spec fn wsub(a: Scalar, b: Scalar) -> Scalar {
    ((a - b) % spec_q()) as Scalar
}

/// Wrapping multiplication in `Z_q`.
pub open spec fn wmul(a: Scalar, b: Scalar) -> Scalar {
    ((a * b) % spec_q()) as Scalar
}

/// Wrapping negation in `Z_q`.
pub open spec fn wneg(a: Scalar) -> Scalar {
    ((0 - a) % spec_q()) as Scalar
}

/// The signed representative of `x` in `[-q/2, q/2)`: the top bit is read as
/// a sign, exactly as `x as i64` would.
pub open spec fn signed(x: Scalar) -> int {
    if x < 0x8000_0000_0000_0000 {
        x as int
    } else {
        x - spec_q()
    }
}

/// Magnitude of the signed representative of `x`.
pub open spec fn sabs(x: Scalar) -> int {
    if signed(x) < 0 {
        -signed(x)
    } else {
        signed(x)
    }
}

/// Wrapping addition is associative.
pub proof fn lemma_wadd_assoc(a: Scalar, b: Scalar, c: Scalar)
    ensures
        wadd(wadd(a, b), c) == wadd(a, wadd(b, c)),
{
    let q = spec_q();
    vstd::arithmetic::div_mod::lemma_add_mod_noop(a + b, c as int, q);
    vstd::arithmetic::div_mod::lemma_add_mod_noop(a as int, b + c, q);
    vstd::arithmetic::div_mod::lemma_mod_twice(a + b, q);
    vstd::arithmetic::div_mod::lemma_mod_twice(b + c, q);
    vstd::arithmetic::div_mod::lemma_small_mod(a as nat, q as nat);
    vstd::arithmetic::div_mod::lemma_small_mod(c as nat, q as nat);
}

/// Wrapping addition is commutative.
pub proof fn lemma_wadd_comm(a: Scalar, b: Scalar)
    ensures
        wadd(a, b) == wadd(b, a),
{
}

/// Adding and then subtracting the same value cancels.
pub proof fn lemma_wsub_cancel(m: Scalar, x: Scalar)
    ensures
        wsub(wadd(m, x), m) == x,
{
    let q = spec_q();
    vstd::arithmetic::div_mod::lemma_sub_mod_noop(m + x, m as int, q);
    vstd::arithmetic::div_mod::lemma_mod_twice(m + x, q);
    vstd::arithmetic::div_mod::lemma_small_mod(m as nat, q as nat);
    vstd::arithmetic::div_mod::lemma_small_mod(x as nat, q as nat);
}

/// Subtracting and then adding the same value cancels.
pub proof fn lemma_wadd_cancel(m: Scalar, x: Scalar)
    ensures
        wadd(m, wsub(x, m)) == x,
{
    let q = spec_q();
    vstd::arithmetic::div_mod::lemma_add_mod_noop(m as int, x - m, q);
    vstd::arithmetic::div_mod::lemma_mod_twice(x - m, q);
    vstd::arithmetic::div_mod::lemma_small_mod(m as nat, q as nat);
    vstd::arithmetic::div_mod::lemma_small_mod(x as nat, q as nat);
}

/// The signed view of a wrapping sum is the sum of the signed views, as long
/// as that sum stays inside `[-q/2, q/2)`.
pub proof fn lemma_signed_wadd(x: Scalar, y: Scalar)
    requires
        -0x8000_0000_0000_0000 <= signed(x) + signed(y) < 0x8000_0000_0000_0000,
    ensures
        signed(wadd(x, y)) == signed(x) + signed(y),
{
    let q = spec_q();
    let s = signed(x) + signed(y);
    assert(x + y == s || x + y == s + q || x + y == s + 2 * q);
    if s >= 0 {
        vstd::arithmetic::div_mod::lemma_mod_multiples_vanish(1, s, q);
        vstd::arithmetic::div_mod::lemma_mod_multiples_vanish(2, s, q);
        vstd::arithmetic::div_mod::lemma_small_mod(s as nat, q as nat);
    } else {
        vstd::arithmetic::div_mod::lemma_mod_multiples_vanish(1, s, q);
        vstd::arithmetic::div_mod::lemma_mod_multiples_vanish(2, s, q);
        vstd::arithmetic::div_mod::lemma_mod_multiples_vanish(1, s + q, q);
        vstd::arithmetic::div_mod::lemma_small_mod((s + q) as nat, q as nat);
    }
}

/// `q/2`, the encoding of the bit 1.
pub const BINARY_DELTA: Scalar = 0x8000_0000_0000_0000;

/// `q/8`, the canonical gate-encoding delta.
pub const GATE_DELTA: Scalar = 0x2000_0000_0000_0000;

/// `q - q/8`: how a boolean zero is encoded for NAND evaluation.
pub const GATE_DELTA_NEG: Scalar = 16140901064495857664;

/// `2^32/8`: the same delta on the 32-bit modulus-switched path.
pub const GATE_DELTA32: u32 = 0x2000_0000;

/// `2^32 - 2^32/8`, the 32-bit gate encoding of zero.
pub const GATE_DELTA32_NEG: u32 = 3758096384;

/// The ternary representative of 1, about `q/3`.
pub const TERNARY_THIRD: Scalar = 6148914691236516864;

/// About `q/6`: the lower edge of the ternary bucket of 1.
pub const TERNARY_SIXTH: Scalar = 3074457345618258432;

/// `q/2 - 1`: the upper edge of the ternary bucket of 1.
pub const TERNARY_HALF: Scalar = 9223372036854775807;

/// Lower edge of the binary bucket of 1: `q/4 - 1`.
pub const BINARY_LOWER: Scalar = 4611686018427387903;

/// Upper edge of the binary bucket of 1: `3q/4 - 2`.
pub const BINARY_UPPER: Scalar = 13835058055282163710;

/// Encode the bit `x` as `x * q/2`.
pub fn binary_encode(x: &mut Scalar)
    requires
        *old(x) == 0 || *old(x) == 1,
    ensures
        *final(x) == *old(x) * BINARY_DELTA,
{
    proof {
        let v = *x;
        assert(v == 0 ==> v << 63u64 == 0) by (bit_vector);
        assert(v == 1 ==> v << 63u64 == 0x8000_0000_0000_0000u64) by (bit_vector);
    }
    *x = *x << 63u64;
}

/// Decode a noisy binary encoding: values in the middle half of `Z_q`
/// (around `q/2`) read as 1, the rest as 0.
pub fn binary_decode(x: &mut Scalar)
    ensures
        *final(x) == (if BINARY_LOWER <= *old(x) && *old(x) < BINARY_UPPER {
            1 as Scalar
        } else {
            0 as Scalar
        }),
{
    proof {
        assert(0xffff_ffff_ffff_ffffu64 >> 2u64 == 4611686018427387903u64) by (bit_vector);
        assert(0xffff_ffff_ffff_ffffu64 >> 1u64 == 9223372036854775807u64) by (bit_vector);
    }
    let lower: Scalar = Scalar::MAX >> 2u64;
    let upper: Scalar = lower + (Scalar::MAX >> 1u64);
    if *x >= lower && *x < upper {
        *x = 1;
    } else {
        *x = 0;
    }
}

/// Re-encode a decrypted accumulator coefficient onto plus or minus `q/8`:
/// negative values (top bit set) become `-q/8`, the rest `q/8`.
pub fn encode_accumulator(x: &mut Scalar)
    ensures
        *final(x) == (if signed(*old(x)) < 0 {
            GATE_DELTA_NEG
        } else {
            GATE_DELTA
        }),
{
    if *x >= 0x8000_0000_0000_0000 {
        *x = 16140901064495857664;
    } else {
        *x = 1u64 << 61u64;
    }
    proof {
        assert(1u64 << 61u64 == 0x2000_0000_0000_0000u64) by (bit_vector);
    }
}

/// 32-bit variant of [`encode_accumulator`].
pub fn encode_accumulator32(x: &mut u32)
    ensures
        *final(x) == (if *old(x) >= 0x8000_0000u32 {
            GATE_DELTA32_NEG
        } else {
            GATE_DELTA32
        }),
{
    if *x >= 0x8000_0000 {
        *x = 3758096384;
    } else {
        *x = 1u32 << 29u32;
    }
    proof {
        assert(1u32 << 29u32 == 0x2000_0000u32) by (bit_vector);
    }
}

/// Encode a gate input: nonzero `x` becomes `x * q/8` (wrapping), zero
/// becomes `-q/8`.
pub fn encode_gate(x: &mut Scalar)
    ensures
        *final(x) == (if *old(x) != 0 {
            wmul(*old(x), GATE_DELTA)
        } else {
            GATE_DELTA_NEG
        }),
{
    if *x != 0 {
        let d: Scalar = 1u64 << 61u64;
        proof {
            assert(1u64 << 61u64 == 0x2000_0000_0000_0000u64) by (bit_vector);
        }
        *x = x.wrapping_mul(d);
    } else {
        *x = 16140901064495857664;
    }
}

/// 32-bit variant of [`encode_gate`].
pub fn encode_gate32(x: &mut u32)
    ensures
        *final(x) == (if *old(x) != 0 {
            ((*old(x) * GATE_DELTA32) % 0x1_0000_0000) as u32
        } else {
            GATE_DELTA32_NEG
        }),
{
    if *x != 0 {
        let d: u32 = 1u32 << 29u32;
        proof {
            assert(1u32 << 29u32 == 0x2000_0000u32) by (bit_vector);
        }
        *x = x.wrapping_mul(d);
    } else {
        *x = 3758096384;
    }
}

/// Decode a gate output: exactly `q/8` reads as 1, anything else as 0.
pub fn decode_gate(x: &mut Scalar)
    ensures
        *final(x) == (if *old(x) == GATE_DELTA {
            1 as Scalar
        } else {
            0 as Scalar
        }),
{
    let d: Scalar = 1u64 << 61u64;
    proof {
        assert(1u64 << 61u64 == 0x2000_0000_0000_0000u64) by (bit_vector);
    }
    if *x == d {
        *x = 1;
    } else {
        *x = 0;
    }
}

/// 32-bit variant of [`decode_gate`].
pub fn decode_gate32(x: &mut u32)
    ensures
        *final(x) == (if *old(x) == GATE_DELTA32 {
            1u32
        } else {
            0u32
        }),
{
    let d: u32 = 1u32 << 29u32;
    proof {
        assert(1u32 << 29u32 == 0x2000_0000u32) by (bit_vector);
    }
    if *x == d {
        *x = 1;
    } else {
        *x = 0;
    }
}

/// Encode a ternary digit: 0 stays 0, 1 becomes about `q/3`, and `q - 1`
/// (the representative of -1) becomes about `2q/3`.
pub fn ternary_encode(x: &mut Scalar)
    requires
        *old(x) == 0 || *old(x) == 1 || *old(x) == Scalar::MAX,
    ensures
        *old(x) == 0 ==> *final(x) == 0,
        *old(x) == 1 ==> *final(x) == TERNARY_THIRD,
        *old(x) == Scalar::MAX ==> *final(x) == 2 * TERNARY_THIRD,
{
    if *x == 0 {
        *x = 0;
    } else if *x == 1 {
        *x = TERNARY_THIRD;
    } else {
        *x = 2 * TERNARY_THIRD;
    }
}

/// Decode a noisy ternary encoding by rounding to the nearest of the three
/// representatives 0, `q/3`, `2q/3`.
pub fn ternary_decode(x: &mut Scalar)
    ensures
        *final(x) == (if TERNARY_SIXTH < *old(x) && *old(x) <= TERNARY_HALF {
            1 as Scalar
        } else if TERNARY_HALF < *old(x) && *old(x) <= TERNARY_HALF + 2 * TERNARY_SIXTH {
            Scalar::MAX
        } else {
            0 as Scalar
        }),
{
    let sixth: Scalar = TERNARY_SIXTH;
    let third: Scalar = sixth + sixth;
    let half: Scalar = Scalar::MAX / 2;
    if *x > sixth && *x <= half {
        *x = 1;
    } else if *x > half && *x <= half + third {
        *x = Scalar::MAX;
    } else {
        *x = 0;
    }
}


/// `n` is a power of two.
pub open spec fn is_pow2(n: int) -> bool
    decreases n,
{
    if n <= 0 {
        false
    } else if n == 1 {
        true
    } else {
        n % 2 == 0 && is_pow2(n / 2)
    }
}

/// The TFHE parameter set together with the three random streams.
/// Noise widths (`std`, `std_lwe`, `std_rlwe`) are log2 magnitude bounds on
/// the centered noise samples drawn for the corresponding material.
pub struct Context {
    pub random_generator: crate::rng::RandomGenerator,
    pub secret_generator: crate::rng::SecretRandomGenerator,
    pub encryption_generator: crate::rng::EncryptionRandomGenerator,
    pub std: u64,
    pub std_lwe: u64,
    pub std_rlwe: u64,
    pub poly_size: usize,
    pub base_log: usize,
    pub level_count: usize,
    pub ks_base_log: usize,
    pub ks_level_count: usize,
    pub rgsw_base_log: usize,
    pub rgsw_level_count: usize,
    pub negs_base_log: usize,
    pub negs_level_count: usize,
    pub m: usize,
    pub glwe_size: usize,
    pub k: usize,
}

impl Context {
    /// Parameter sanity: sizes in machine range, power-of-two degree, gadget
    /// levels that fit the word, noise bounds far inside the decoding windows.
    pub open spec fn wf(&self) -> bool {
        &&& 1 <= self.poly_size <= 0x100_0000
        &&& is_pow2(self.poly_size as int)
        &&& self.std <= 50
        &&& self.std_lwe <= 50
        &&& self.std_rlwe <= 50
        &&& 1 <= self.base_log <= 32
        &&& 1 <= self.level_count
        &&& self.base_log * self.level_count <= 64
        &&& 1 <= self.ks_base_log <= 32
        &&& 1 <= self.ks_level_count
        &&& self.ks_base_log * self.ks_level_count <= 64
        &&& 1 <= self.rgsw_base_log <= 32
        &&& 1 <= self.rgsw_level_count
        &&& self.rgsw_base_log * self.rgsw_level_count <= 64
        &&& 1 <= self.negs_base_log <= 32
        &&& 1 <= self.negs_level_count
        &&& self.negs_base_log * self.negs_level_count <= 64
        &&& 1 <= self.m <= 0x100_0000
        &&& 2 <= self.glwe_size <= 0x100_0000
        &&& 1 <= self.k <= 64
    }

    /// The parameter set the scheme is specified at: degree 2048, LWE
    /// dimension 494, four parties.
    pub fn default() -> (r: Context)
        ensures
            r.wf(),
            r.poly_size == 2048,
            r.k == 4,
            r.m == 192,
            r.glwe_size == 495,
    {
        proof {
            reveal_with_fuel(is_pow2, 13);
            assert(is_pow2(2048));
        }
        Context {
            random_generator: crate::rng::RandomGenerator::new(None),
            secret_generator: crate::rng::SecretRandomGenerator::new(None),
            encryption_generator: crate::rng::EncryptionRandomGenerator::new(None),
            std: 9,
            std_lwe: 17,
            std_rlwe: 14,
            poly_size: 2048,
            base_log: 4,
            level_count: 15,
            ks_base_log: 13,
            ks_level_count: 3,
            rgsw_base_log: 10,
            rgsw_level_count: 5,
            negs_base_log: 30,
            negs_level_count: 2,
            m: 192,
            glwe_size: 495,
            k: 4,
        }
    }

    /// A context over explicit parameters, with seeded streams for
    /// reproducible runs.
    #[allow(clippy::too_many_arguments)]
    pub fn custom(
        poly_size: usize,
        base_log: usize,
        level_count: usize,
        ks_base_log: usize,
        ks_level_count: usize,
        rgsw_base_log: usize,
        rgsw_level_count: usize,
        negs_base_log: usize,
        negs_level_count: usize,
        m: usize,
        glwe_size: usize,
        k: usize,
        std: u64,
        std_lwe: u64,
        std_rlwe: u64,
        seed: u64,
    ) -> (r: Context)
        requires
            1 <= poly_size <= 0x100_0000,
            is_pow2(poly_size as int),
            std <= 50,
            std_lwe <= 50,
            std_rlwe <= 50,
            1 <= base_log <= 32,
            1 <= level_count,
            base_log * level_count <= 64,
            1 <= ks_base_log <= 32,
            1 <= ks_level_count,
            ks_base_log * ks_level_count <= 64,
            1 <= rgsw_base_log <= 32,
            1 <= rgsw_level_count,
            rgsw_base_log * rgsw_level_count <= 64,
            1 <= negs_base_log <= 32,
            1 <= negs_level_count,
            negs_base_log * negs_level_count <= 64,
            1 <= m <= 0x100_0000,
            2 <= glwe_size <= 0x100_0000,
            1 <= k <= 64,
        ensures
            r.wf(),
            r.poly_size == poly_size,
            r.base_log == base_log,
            r.level_count == level_count,
            r.ks_base_log == ks_base_log,
            r.ks_level_count == ks_level_count,
            r.rgsw_base_log == rgsw_base_log,
            r.rgsw_level_count == rgsw_level_count,
            r.negs_base_log == negs_base_log,
            r.negs_level_count == negs_level_count,
            r.m == m,
            r.glwe_size == glwe_size,
            r.k == k,
            r.std == std,
            r.std_lwe == std_lwe,
            r.std_rlwe == std_rlwe,
    {
        Context {
            random_generator: crate::rng::RandomGenerator::new(Some(seed)),
            secret_generator: crate::rng::SecretRandomGenerator::new(
                Some(seed.wrapping_add(1)),
            ),
            encryption_generator: crate::rng::EncryptionRandomGenerator::new(
                Some(seed.wrapping_add(2)),
            ),
            std,
            std_lwe,
            std_rlwe,
            poly_size,
            base_log,
            level_count,
            ks_base_log,
            ks_level_count,
            rgsw_base_log,
            rgsw_level_count,
            negs_base_log,
            negs_level_count,
            m,
            glwe_size,
            k,
        }
    }

    /// The number of plaintext coefficients: the polynomial degree.
    pub fn plaintext_count(&self) -> (r: usize)
        ensures
            r == self.poly_size,
    {
        self.poly_size
    }

    /// A uniform binary plaintext polynomial.
    pub fn gen_binary_pt(&mut self) -> (r: Vec<Scalar>)
        ensures
            r@.len() == old(self).poly_size,
            crate::poly::is_binary_poly(r@),
            final(self).poly_size == old(self).poly_size,
            ctx_params_unchanged(old(self), final(self)),
    {
        let n = self.poly_size;
        self.random_generator.gen_binary_vec(n)
    }

    /// A uniform ternary plaintext polynomial over 0, 1, `q - 1`.
    pub fn gen_ternary_ptxt(&mut self) -> (r: Vec<Scalar>)
        ensures
            r@.len() == old(self).poly_size,
            forall|i: int| 0 <= i < r@.len() ==> r@[i] == 0 || r@[i] == 1 || r@[i] == Scalar::MAX,
            ctx_params_unchanged(old(self), final(self)),
    {
        let n = self.poly_size;
        self.random_generator.gen_ternary_vec(n)
    }

    /// The plaintext with constant term 1 and every other coefficient 0.
    pub fn gen_unit_pt(&self) -> (r: Vec<Scalar>)
        requires
            self.poly_size >= 1,
        ensures
            r@.len() == self.poly_size,
            r@[0] == 1,
            forall|i: int| 1 <= i < r@.len() ==> r@[i] == 0,
    {
        let mut v = crate::poly::poly_zero(self.poly_size);
        v.set(0, 1);
        v
    }

    /// The all-zero plaintext.
    pub fn gen_zero_pt(&self) -> (r: Vec<Scalar>)
        ensures
            r@.len() == self.poly_size,
            crate::poly::is_zero_poly(r@),
    {
        crate::poly::poly_zero(self.poly_size)
    }

    /// Generate a fresh binary RLWE secret key at the context degree.
    pub fn gen_rlwe_sk(&mut self) -> (r: crate::rlwe::RLWESecretKey)
        ensures
            r.poly@.len() == old(self).poly_size,
            crate::poly::is_binary_poly(r.poly@),
            ctx_params_unchanged(old(self), final(self)),
    {
        let n = self.poly_size;
        crate::rlwe::RLWESecretKey::generate_binary(n, &mut self.secret_generator)
    }
}

/// The parameter fields of the context do not change; only the random
/// streams advance.
pub open spec fn ctx_params_unchanged(a: &Context, b: &Context) -> bool {
    &&& a.std == b.std
    &&& a.std_lwe == b.std_lwe
    &&& a.std_rlwe == b.std_rlwe
    &&& a.poly_size == b.poly_size
    &&& a.base_log == b.base_log
    &&& a.level_count == b.level_count
    &&& a.ks_base_log == b.ks_base_log
    &&& a.ks_level_count == b.ks_level_count
    &&& a.rgsw_base_log == b.rgsw_base_log
    &&& a.rgsw_level_count == b.rgsw_level_count
    &&& a.negs_base_log == b.negs_base_log
    &&& a.negs_level_count == b.negs_level_count
    &&& a.m == b.m
    &&& a.glwe_size == b.glwe_size
    &&& a.k == b.k
}

/// A plaintext with `ctnt` at `index` and 0 everywhere else.
pub fn plaintext_index(index: usize, ctnt: Scalar, ctx: &Context) -> (r: Vec<Scalar>)
    requires
        index < ctx.poly_size,
    ensures
        r@.len() == ctx.poly_size,
        r@[index as int] == ctnt,
        forall|i: int| 0 <= i < r@.len() && i != index ==> r@[i] == 0,
{
    let mut v = crate::poly::poly_zero(ctx.poly_size);
    v.set(index, ctnt);
    v
}

/// What [`binary_decode`] returns on `x`.
pub open spec fn binary_decode_spec(x: Scalar) -> Scalar {
    if BINARY_LOWER <= x && x < BINARY_UPPER {
        1 as Scalar
    } else {
        0 as Scalar
    }
}

/// What [`ternary_encode`] returns on `x`.
pub open spec fn ternary_encode_spec(x: Scalar) -> Scalar {
    if x == 1 {
        TERNARY_THIRD
    } else if x == Scalar::MAX {
        (2 * TERNARY_THIRD) as Scalar
    } else {
        0 as Scalar
    }
}

/// What [`ternary_decode`] returns on `x`.
pub open spec fn ternary_decode_spec(x: Scalar) -> Scalar {
    if TERNARY_SIXTH < x && x <= TERNARY_HALF {
        1 as Scalar
    } else if TERNARY_HALF < x && x <= TERNARY_HALF + 2 * TERNARY_SIXTH {
        Scalar::MAX
    } else {
        0 as Scalar
    }
}

/// What [`decode_gate`] returns on `x`.
pub open spec fn gate_decode_spec(x: Scalar) -> Scalar {
    if x == GATE_DELTA {
        1 as Scalar
    } else {
        0 as Scalar
    }
}

/// What [`encode_accumulator`] returns on `x`.
pub open spec fn accumulator_encode_spec(x: Scalar) -> Scalar {
    if signed(x) < 0 {
        GATE_DELTA_NEG
    } else {
        GATE_DELTA
    }
}

/// Binary encoding, coefficient by coefficient.
pub open spec fn binary_encode_seq(p: Seq<Scalar>) -> Seq<Scalar> {
    Seq::new(p.len(), |i: int| wmul(p[i], BINARY_DELTA))
}

/// Binary decoding, coefficient by coefficient.
pub open spec fn binary_decode_seq(p: Seq<Scalar>) -> Seq<Scalar> {
    Seq::new(p.len(), |i: int| binary_decode_spec(p[i]))
}

/// Ternary encoding, coefficient by coefficient.
pub open spec fn ternary_encode_seq(p: Seq<Scalar>) -> Seq<Scalar> {
    Seq::new(p.len(), |i: int| ternary_encode_spec(p[i]))
}

/// Ternary decoding, coefficient by coefficient.
pub open spec fn ternary_decode_seq(p: Seq<Scalar>) -> Seq<Scalar> {
    Seq::new(p.len(), |i: int| ternary_decode_spec(p[i]))
}

/// Gate decoding, coefficient by coefficient.
pub open spec fn gate_decode_seq(p: Seq<Scalar>) -> Seq<Scalar> {
    Seq::new(p.len(), |i: int| gate_decode_spec(p[i]))
}

/// Round-half-up of `x / 2^shift`.
pub open spec fn round_div_pow2(x: Scalar, shift: nat) -> int
    recommends
        1 <= shift,
{
    (x + vstd::arithmetic::power2::pow2((shift - 1) as nat)) as int
        / vstd::arithmetic::power2::pow2(shift) as int
}

/// `floor((x + 2^(shift-1)) / 2^shift)`: divide by `2^shift`, rounding
/// half up, by the shift-add-shift dance.
pub fn round_shift(x: u64, shift: u64) -> (r: u64)
    requires
        1 <= shift <= 63,
    ensures
        r as int == round_div_pow2(x, shift as nat),
{
    if shift == 1 {
        let t = x >> 1u64;
        let b = x & 1;
        proof {
            vstd::bits::lemma_u64_shr_is_div(x, 1u64);
            vstd::arithmetic::power2::lemma2_to64();
            assert(x & 1 == x % 2) by (bit_vector);
            // x/2 + x%2 == (x + 1) / 2
            vstd::arithmetic::div_mod::lemma_fundamental_div_mod(x as int, 2);
            if x % 2 == 0 {
                vstd::arithmetic::div_mod::lemma_fundamental_div_mod_converse(
                    x as int + 1,
                    2,
                    x as int / 2,
                    1,
                );
            } else {
                vstd::arithmetic::div_mod::lemma_fundamental_div_mod_converse(
                    x as int + 1,
                    2,
                    x as int / 2 + 1,
                    0,
                );
            }
        }
        return t + b;
    }
    let t = x >> (shift - 1);
    proof {
        vstd::bits::lemma_u64_shr_is_div(x, (shift - 1) as u64);
        vstd::arithmetic::power2::lemma2_to64();
        if shift > 2 {
            vstd::arithmetic::power2::lemma_pow2_strictly_increases(1, (shift - 1) as nat);
        }
        vstd::arithmetic::div_mod::lemma_div_is_ordered_by_denominator(
            x as int,
            2,
            vstd::arithmetic::power2::pow2((shift - 1) as nat) as int,
        );
        assert(t <= x as int / 2);
    }
    let b = t & 1;
    proof {
        assert(t & 1 == t % 2) by (bit_vector);
    }
    let u = t + b;
    let r = u >> 1u64;
    proof {
        vstd::bits::lemma_u64_shr_is_div(u, 1u64);
        vstd::arithmetic::power2::lemma2_to64();
        let h = vstd::arithmetic::power2::pow2((shift - 1) as nat) as int;
        vstd::arithmetic::power2::lemma_pow2_pos((shift - 1) as nat);
        vstd::arithmetic::div_mod::lemma_fundamental_div_mod(x as int, h);
        let u0 = x as int % h;
        vstd::arithmetic::div_mod::lemma_mod_bound(x as int, h);
        // u == t + t % 2, and (t + t % 2) / 2 == (t + 1) / 2
        assert(u as int / 2 == (t + 1) as int / 2) by {
            vstd::arithmetic::div_mod::lemma_fundamental_div_mod(t as int, 2);
            if t % 2 == 0 {
                vstd::arithmetic::div_mod::lemma_fundamental_div_mod_converse(
                    t as int,
                    2,
                    t as int / 2,
                    0,
                );
                vstd::arithmetic::div_mod::lemma_fundamental_div_mod_converse(
                    t + 1,
                    2,
                    t as int / 2,
                    1,
                );
            } else {
                vstd::arithmetic::div_mod::lemma_fundamental_div_mod_converse(
                    t + 1,
                    2,
                    t as int / 2 + 1,
                    0,
                );
            }
        }
        // (x + h) / h == t + 1
        vstd::arithmetic::mul::lemma_mul_is_distributive_add(h, t as int, 1);
        assert(h * (t + 1) == h * (t as int) + h);
        assert(x as int + h == h * (t + 1) + u0);
        vstd::arithmetic::div_mod::lemma_fundamental_div_mod_converse(
            x as int + h,
            h,
            t + 1,
            u0,
        );
        // ((x + h) / h) / 2 == (x + h) / (2h)
        vstd::arithmetic::div_mod::lemma_div_denominator(x as int + h, h, 2);
        vstd::arithmetic::power2::lemma_pow2_adds((shift - 1) as nat, 1);
        assert(vstd::arithmetic::power2::pow2(shift as nat) as int == h * 2);
    }
    r
}

/// Gadget delta of one-based level `j` at base `2^base_log`:
/// `q / B^j = 2^(64 - base_log * j)`.
pub open spec fn gadget_delta(base_log: int, j: int) -> Scalar
    recommends
        1 <= base_log,
        1 <= j,
        base_log * j <= 64,
{
    if base_log * j == 64 {
        1 as Scalar
    } else {
        vstd::arithmetic::power2::pow2((64 - base_log * j) as nat) as Scalar
    }
}

/// Encode a gadget digit `x` as `x * q / B` for the first level, wrapping.
pub fn encode(x: &mut Scalar, ctx: &Context)
    requires
        ctx.wf(),
    ensures
        *final(x) == wmul(*old(x), gadget_delta(ctx.rgsw_base_log as int, 1)),
{
    let shift: u64 = 64 - (ctx.rgsw_base_log as u64);
    proof {
        if shift == 0 {
            assert(1u64 << 0u64 == 1u64) by (bit_vector);
        } else {
            vstd::arithmetic::power2::lemma2_to64();
            vstd::arithmetic::power2::lemma2_to64_rest();
            vstd::arithmetic::power2::lemma_pow2_strictly_increases(shift as nat, 64);
            vstd::bits::lemma_u64_shl_is_mul(1u64, shift);
        }
    }
    let d: Scalar = 1u64 << shift;
    let r = x.wrapping_mul(d);
    *x = r;
}

/// Decode a gadget-encoded coefficient: round to the nearest multiple of
/// `q / B` and return the digit, reduced modulo `B`.
pub fn decode(x: &mut Scalar, ctx: &Context)
    requires
        ctx.wf(),
        ctx.rgsw_base_log <= 32,
    ensures
        *final(x) as int == round_div_pow2(*old(x), (64 - ctx.rgsw_base_log) as nat) % (
        vstd::arithmetic::power2::pow2(ctx.rgsw_base_log as nat) as int),
{
    let shift: u64 = 64 - (ctx.rgsw_base_log as u64);
    let t = round_shift(*x, shift);
    proof {
        vstd::arithmetic::power2::lemma2_to64();
        vstd::arithmetic::power2::lemma2_to64_rest();
        vstd::arithmetic::power2::lemma_pow2_strictly_increases(ctx.rgsw_base_log as nat, 64);
        vstd::arithmetic::power2::lemma_pow2_pos(ctx.rgsw_base_log as nat);
        vstd::bits::lemma_u64_shl_is_mul(1u64, ctx.rgsw_base_log as u64);
    }
    let b: Scalar = 1u64 << (ctx.rgsw_base_log as u64);
    *x = t % b;
}

/// Reduce a coefficient modulo the gadget base.
pub fn decode_acc(x: &mut Scalar, ctx: &Context)
    requires
        ctx.wf(),
    ensures
        *final(x) as int == *old(x) as int % (vstd::arithmetic::power2::pow2(
            ctx.rgsw_base_log as nat,
        ) as int),
{
    proof {
        vstd::arithmetic::power2::lemma2_to64();
        vstd::arithmetic::power2::lemma2_to64_rest();
        vstd::arithmetic::power2::lemma_pow2_strictly_increases(ctx.rgsw_base_log as nat, 64);
        vstd::arithmetic::power2::lemma_pow2_pos(ctx.rgsw_base_log as nat);
        vstd::bits::lemma_u64_shl_is_mul(1u64, ctx.rgsw_base_log as u64);
    }
    let b: Scalar = 1u64 << (ctx.rgsw_base_log as u64);
    *x = *x % b;
}

/// Encode every coefficient of a binary polynomial.
pub fn poly_binary_encode(xs: &mut Vec<Scalar>)
    requires
        crate::poly::is_binary_poly(old(xs)@),
    ensures
        final(xs)@ == binary_encode_seq(old(xs)@),
{
    let n = xs.len();
    let mut i: usize = 0;
    while i < n
        invariant
            n == xs@.len(),
            n == old(xs)@.len(),
            crate::poly::is_binary_poly(old(xs)@),
            i <= n,
            forall|j: int| 0 <= j < i ==> xs@[j] == wmul(old(xs)@[j], BINARY_DELTA),
            forall|j: int| i <= j < n ==> xs@[j] == old(xs)@[j],
        decreases n - i,
    {
        let mut c = xs[i];
        proof {
            assert(old(xs)@[i as int] == 0 || old(xs)@[i as int] == 1);
        }
        binary_encode(&mut c);
        xs.set(i, c);
        i = i + 1;
    }
    proof {
        assert(xs@ =~= binary_encode_seq(old(xs)@));
    }
}

/// Decode every coefficient of a noisy binary-encoded polynomial.
pub fn poly_binary_decode(xs: &mut Vec<Scalar>)
    ensures
        final(xs)@ == binary_decode_seq(old(xs)@),
{
    let n = xs.len();
    let mut i: usize = 0;
    while i < n
        invariant
            n == xs@.len(),
            i <= n,
            forall|j: int| 0 <= j < i ==> xs@[j] == binary_decode_spec(old(xs)@[j]),
            forall|j: int| i <= j < n ==> xs@[j] == old(xs)@[j],
        decreases n - i,
    {
        let mut c = xs[i];
        binary_decode(&mut c);
        xs.set(i, c);
        i = i + 1;
    }
    proof {
        assert(xs@ =~= binary_decode_seq(old(xs)@));
    }
}

/// Encode every coefficient of a ternary polynomial.
pub fn poly_ternary_encode(xs: &mut Vec<Scalar>)
    requires
        forall|i: int|
            0 <= i < old(xs)@.len() ==> old(xs)@[i] == 0 || old(xs)@[i] == 1 || old(xs)@[i]
                == Scalar::MAX,
    ensures
        final(xs)@ == ternary_encode_seq(old(xs)@),
{
    let n = xs.len();
    let mut i: usize = 0;
    while i < n
        invariant
            n == xs@.len(),
            n == old(xs)@.len(),
            forall|j: int|
                0 <= j < n ==> old(xs)@[j] == 0 || old(xs)@[j] == 1 || old(xs)@[j] == Scalar::MAX,
            i <= n,
            forall|j: int| 0 <= j < i ==> xs@[j] == ternary_encode_spec(old(xs)@[j]),
            forall|j: int| i <= j < n ==> xs@[j] == old(xs)@[j],
        decreases n - i,
    {
        let mut c = xs[i];
        ternary_encode(&mut c);
        xs.set(i, c);
        i = i + 1;
    }
    proof {
        assert(xs@ =~= ternary_encode_seq(old(xs)@));
    }
}

/// Decode every coefficient of a noisy ternary-encoded polynomial.
pub fn poly_ternary_decode(xs: &mut Vec<Scalar>)
    ensures
        final(xs)@ == ternary_decode_seq(old(xs)@),
{
    let n = xs.len();
    let mut i: usize = 0;
    while i < n
        invariant
            n == xs@.len(),
            i <= n,
            forall|j: int| 0 <= j < i ==> xs@[j] == ternary_decode_spec(old(xs)@[j]),
            forall|j: int| i <= j < n ==> xs@[j] == old(xs)@[j],
        decreases n - i,
    {
        let mut c = xs[i];
        ternary_decode(&mut c);
        xs.set(i, c);
        i = i + 1;
    }
    proof {
        assert(xs@ =~= ternary_decode_seq(old(xs)@));
    }
}

/// Re-encode every coefficient onto plus or minus `q/8`.
pub fn poly_encode_accumulator(xs: &mut Vec<Scalar>)
    ensures
        final(xs)@.len() == old(xs)@.len(),
        forall|j: int|
            0 <= j < old(xs)@.len() ==> final(xs)@[j] == accumulator_encode_spec(old(xs)@[j]),
{
    let n = xs.len();
    let mut i: usize = 0;
    while i < n
        invariant
            n == xs@.len(),
            i <= n,
            forall|j: int| 0 <= j < i ==> xs@[j] == accumulator_encode_spec(old(xs)@[j]),
            forall|j: int| i <= j < n ==> xs@[j] == old(xs)@[j],
        decreases n - i,
    {
        let mut c = xs[i];
        encode_accumulator(&mut c);
        xs.set(i, c);
        i = i + 1;
    }
}

/// Gate-decode every coefficient.
pub fn poly_decode_gate(xs: &mut Vec<Scalar>)
    ensures
        final(xs)@ == gate_decode_seq(old(xs)@),
{
    let n = xs.len();
    let mut i: usize = 0;
    while i < n
        invariant
            n == xs@.len(),
            i <= n,
            forall|j: int| 0 <= j < i ==> xs@[j] == gate_decode_spec(old(xs)@[j]),
            forall|j: int| i <= j < n ==> xs@[j] == old(xs)@[j],
        decreases n - i,
    {
        let mut c = xs[i];
        decode_gate(&mut c);
        xs.set(i, c);
        i = i + 1;
    }
    proof {
        assert(xs@ =~= gate_decode_seq(old(xs)@));
    }
}

/// Gadget-encode every coefficient for the first level.
pub fn poly_encode(xs: &mut Vec<Scalar>, ctx: &Context)
    requires
        ctx.wf(),
    ensures
        final(xs)@ == crate::poly::seq_wscale(
            old(xs)@,
            gadget_delta(ctx.rgsw_base_log as int, 1),
        ),
{
    let n = xs.len();
    let mut i: usize = 0;
    while i < n
        invariant
            ctx.wf(),
            n == xs@.len(),
            i <= n,
            forall|j: int|
                0 <= j < i ==> xs@[j] == wmul(
                    old(xs)@[j],
                    gadget_delta(ctx.rgsw_base_log as int, 1),
                ),
            forall|j: int| i <= j < n ==> xs@[j] == old(xs)@[j],
        decreases n - i,
    {
        let mut c = xs[i];
        encode(&mut c, ctx);
        xs.set(i, c);
        i = i + 1;
    }
    proof {
        assert(xs@ =~= crate::poly::seq_wscale(
            old(xs)@,
            gadget_delta(ctx.rgsw_base_log as int, 1),
        ));
    }
}

/// Gadget-decode every coefficient.
pub fn poly_decode(xs: &mut Vec<Scalar>, ctx: &Context)
    requires
        ctx.wf(),
    ensures
        final(xs)@.len() == old(xs)@.len(),
        forall|j: int|
            0 <= j < old(xs)@.len() ==> final(xs)@[j] as int == round_div_pow2(
                old(xs)@[j],
                (64 - ctx.rgsw_base_log) as nat,
            ) % (vstd::arithmetic::power2::pow2(ctx.rgsw_base_log as nat) as int),
{
    let n = xs.len();
    let mut i: usize = 0;
    while i < n
        invariant
            ctx.wf(),
            n == xs@.len(),
            i <= n,
            forall|j: int|
                0 <= j < i ==> xs@[j] as int == round_div_pow2(
                    old(xs)@[j],
                    (64 - ctx.rgsw_base_log) as nat,
                ) % (vstd::arithmetic::power2::pow2(ctx.rgsw_base_log as nat) as int),
            forall|j: int| i <= j < n ==> xs@[j] == old(xs)@[j],
        decreases n - i,
    {
        let mut c = xs[i];
        decode(&mut c, ctx);
        xs.set(i, c);
        i = i + 1;
    }
}

/// Reduce every coefficient modulo the gadget base.
pub fn poly_decode_acc(xs: &mut Vec<Scalar>, ctx: &Context)
    requires
        ctx.wf(),
    ensures
        final(xs)@.len() == old(xs)@.len(),
        forall|j: int|
            0 <= j < old(xs)@.len() ==> final(xs)@[j] as int == old(xs)@[j] as int % (
            vstd::arithmetic::power2::pow2(ctx.rgsw_base_log as nat) as int),
{
    let n = xs.len();
    let mut i: usize = 0;
    while i < n
        invariant
            ctx.wf(),
            n == xs@.len(),
            i <= n,
            forall|j: int|
                0 <= j < i ==> xs@[j] as int == old(xs)@[j] as int % (
                vstd::arithmetic::power2::pow2(ctx.rgsw_base_log as nat) as int),
            forall|j: int| i <= j < n ==> xs@[j] == old(xs)@[j],
        decreases n - i,
    {
        let mut c = xs[i];
        decode_acc(&mut c, ctx);
        xs.set(i, c);
        i = i + 1;
    }
}

/// Subtracting zero changes nothing.
pub proof fn lemma_wsub_zero(x: Scalar)
    ensures
        wsub(x, 0) == x,
{
    vstd::arithmetic::div_mod::lemma_small_mod(x as nat, spec_q() as nat);
}

/// Triangle inequality for the signed magnitude of a wrapping sum.
pub proof fn lemma_sabs_wadd(x: Scalar, y: Scalar)
    requires
        sabs(x) + sabs(y) < 0x8000_0000_0000_0000,
    ensures
        sabs(wadd(x, y)) <= sabs(x) + sabs(y),
{
    lemma_signed_wadd(x, y);
}

/// Subtraction distributes over pairs of wrapping sums.
pub proof fn lemma_wadd_wsub_exchange(b1: Scalar, b2: Scalar, x1: Scalar, x2: Scalar)
    ensures
        wsub(wadd(b1, b2), wadd(x1, x2)) == wadd(wsub(b1, x1), wsub(b2, x2)),
{
    let q = spec_q();
    vstd::arithmetic::div_mod::lemma_sub_mod_noop(b1 + b2, x1 + x2, q);
    vstd::arithmetic::div_mod::lemma_mod_twice(b1 + b2, q);
    vstd::arithmetic::div_mod::lemma_mod_twice(x1 + x2, q);
    vstd::arithmetic::div_mod::lemma_add_mod_noop(b1 - x1, b2 - x2, q);
}

/// The law of homomorphic addition (scalar step): subtracting a sum of
/// phases from a sum of bodies splits componentwise.
pub proof fn lemma_wadd_then_wsub(b: Scalar, e: Scalar, x: Scalar)
    ensures
        wsub(wadd(b, e), x) == wadd(wsub(b, x), e),
{
    let q = spec_q();
    vstd::arithmetic::div_mod::lemma_sub_mod_noop(b + e, x as int, q);
    vstd::arithmetic::div_mod::lemma_mod_twice(b + e, q);
    vstd::arithmetic::div_mod::lemma_small_mod(x as nat, q as nat);
    vstd::arithmetic::div_mod::lemma_add_mod_noop(b - x, e as int, q);
    vstd::arithmetic::div_mod::lemma_mod_twice(b - x, q);
    vstd::arithmetic::div_mod::lemma_small_mod(e as nat, q as nat);
}

/// Subtracting `t` and then subtracting `-t` restores the value.
pub proof fn lemma_wsub_wneg(a: Scalar, t: Scalar)
    ensures
        wsub(wsub(a, t), wneg(t)) == a,
{
    let q = spec_q();
    vstd::arithmetic::div_mod::lemma_sub_mod_noop(a - t, 0 - t, q);
    vstd::arithmetic::div_mod::lemma_mod_twice(a - t, q);
    vstd::arithmetic::div_mod::lemma_mod_twice(0 - t, q);
    vstd::arithmetic::div_mod::lemma_small_mod(a as nat, q as nat);
}

/// Peeling one summand off a nested subtraction.
pub proof fn lemma_wsub_nested(b: Scalar, x: Scalar, y: Scalar)
    ensures
        wsub(b, wadd(x, y)) == wsub(wsub(b, x), y),
{
    let q = spec_q();
    vstd::arithmetic::div_mod::lemma_sub_mod_noop(b as int, x + y, q);
    vstd::arithmetic::div_mod::lemma_mod_twice(x + y, q);
    vstd::arithmetic::div_mod::lemma_small_mod(b as nat, q as nat);
    vstd::arithmetic::div_mod::lemma_sub_mod_noop(b - x, y as int, q);
    vstd::arithmetic::div_mod::lemma_mod_twice(b - x, q);
    vstd::arithmetic::div_mod::lemma_small_mod(y as nat, q as nat);
}


/// A noisy gadget encoding decodes back to its digit: if `v` is within half
/// a gadget step of `x * q/B` and `x` is a digit below the base, rounding
/// `v` to the nearest step recovers `x`, modulo `B`.
pub proof fn lemma_gadget_decode_near(x: Scalar, v: Scalar, base_log: int)
    requires
        1 <= base_log <= 32,
        x < vstd::arithmetic::power2::pow2(base_log as nat),
        sabs(wsub(v, wmul(x, gadget_delta(base_log, 1)))) < vstd::arithmetic::power2::pow2(
            (64 - base_log - 1) as nat,
        ),
    ensures
        round_div_pow2(v, (64 - base_log) as nat) % (vstd::arithmetic::power2::pow2(
            base_log as nat,
        ) as int) == x,
{
    let q = spec_q();
    let sft = (64 - base_log) as nat;
    let dd = vstd::arithmetic::power2::pow2(sft) as int;
    let h = vstd::arithmetic::power2::pow2((sft - 1) as nat) as int;
    let bb = vstd::arithmetic::power2::pow2(base_log as nat) as int;
    vstd::arithmetic::power2::lemma_pow2_pos(sft);
    vstd::arithmetic::power2::lemma_pow2_pos((sft - 1) as nat);
    vstd::arithmetic::power2::lemma_pow2_pos(base_log as nat);
    assert(dd == 2 * h) by {
        vstd::arithmetic::power2::lemma_pow2_unfold(sft);
    }
    assert(bb * dd == q) by {
        vstd::arithmetic::power2::lemma_pow2_adds(base_log as nat, sft);
        vstd::arithmetic::power2::lemma2_to64_rest();
    }
    assert(dd < q) by {
        vstd::arithmetic::power2::lemma_pow2_strictly_increases(sft, 64);
        vstd::arithmetic::power2::lemma2_to64_rest();
    }
    assert(gadget_delta(base_log, 1) == dd as Scalar);
    let enc = wmul(x, gadget_delta(base_log, 1));
    assert(x * dd >= 0) by {
        vstd::arithmetic::mul::lemma_mul_nonnegative(x as int, dd);
    }
    assert(x * dd <= (bb - 1) * dd) by {
        vstd::arithmetic::mul::lemma_mul_inequality(x as int, bb - 1, dd);
    }
    assert((bb - 1) * dd == q - dd) by {
        vstd::arithmetic::mul::lemma_mul_is_distributive_sub_other_way(dd, bb, 1);
    }
    assert(enc == x * dd) by {
        vstd::arithmetic::div_mod::lemma_small_mod((x * dd) as nat, q as nat);
    }
    let e = signed(wsub(v, enc));
    lemma_wadd_cancel(enc, v);
    // v as an integer: the encoding plus the signed error, possibly wrapped
    if e >= 0 {
        assert(v == enc + e) by {
            assert(wsub(v, enc) == e);
            vstd::arithmetic::div_mod::lemma_small_mod((enc + e) as nat, q as nat);
        }
        assert(round_div_pow2(v, sft) == x) by {
            assert(v + h == dd * (x as int) + (e + h)) by {
                vstd::arithmetic::mul::lemma_mul_is_commutative(x as int, dd);
            }
            vstd::arithmetic::div_mod::lemma_fundamental_div_mod_converse(
                v + h,
                dd,
                x as int,
                e + h,
            );
        }
        vstd::arithmetic::div_mod::lemma_small_mod(x as nat, bb as nat);
    } else {
        assert(wsub(v, enc) == e + q);
        if x > 0 {
            assert(x * dd >= dd) by {
                vstd::arithmetic::mul::lemma_mul_inequality(1, x as int, dd);
            }
            assert(v == x * dd + e) by {
                assert(wadd(enc, wsub(v, enc)) == v);
                assert(wadd(enc, (e + q) as Scalar) == ((x * dd + e + q) % q) as Scalar);
                vstd::arithmetic::div_mod::lemma_mod_multiples_vanish(1, x * dd + e, q);
                vstd::arithmetic::div_mod::lemma_small_mod((x * dd + e) as nat, q as nat);
            }
            assert(round_div_pow2(v, sft) == x) by {
                assert(v + h == dd * (x as int) + (e + h)) by {
                    vstd::arithmetic::mul::lemma_mul_is_commutative(x as int, dd);
                }
                vstd::arithmetic::div_mod::lemma_fundamental_div_mod_converse(
                    v + h,
                    dd,
                    x as int,
                    e + h,
                );
            }
            vstd::arithmetic::div_mod::lemma_small_mod(x as nat, bb as nat);
        } else {
            // x == 0 and a negative error: the value wraps below zero
            assert(enc == 0) by {
                vstd::arithmetic::mul::lemma_mul_by_zero_is_zero(dd);
            }
            assert(v == q + e) by {
                assert(wadd(0, (e + q) as Scalar) == v);
                vstd::arithmetic::div_mod::lemma_small_mod((q + e) as nat, q as nat);
            }
            assert(round_div_pow2(v, sft) == bb) by {
                assert(dd * bb == bb * dd) by {
                    vstd::arithmetic::mul::lemma_mul_is_commutative(dd, bb);
                }
                assert(v + h == dd * bb + (e + h));
                vstd::arithmetic::div_mod::lemma_fundamental_div_mod_converse(
                    v + h,
                    dd,
                    bb,
                    e + h,
                );
            }
            vstd::arithmetic::div_mod::lemma_mod_self_0(bb);
        }
    }
}

/// Round trip for the gadget encoding: every coefficient of a noisy
/// gadget-encoded polynomial decodes back to its digit.
pub proof fn lemma_gadget_round_trip(pt: Seq<Scalar>, phase: Seq<Scalar>, base_log: int, bound: int)
    requires
        1 <= base_log <= 32,
        phase.len() == pt.len(),
        forall|i: int|
            0 <= i < pt.len() ==> pt[i] < vstd::arithmetic::power2::pow2(base_log as nat),
        forall|i: int|
            0 <= i < pt.len() ==> sabs(wsub(phase[i], wmul(pt[i], gadget_delta(base_log, 1))))
                <= bound,
        0 <= bound,
        bound < vstd::arithmetic::power2::pow2((64 - base_log - 1) as nat),
    ensures
        forall|i: int|
            0 <= i < pt.len() ==> round_div_pow2(#[trigger] phase[i], (64 - base_log) as nat) % (
            vstd::arithmetic::power2::pow2(base_log as nat) as int) == pt[i],
{
    assert forall|i: int| 0 <= i < pt.len() implies round_div_pow2(
        #[trigger] phase[i],
        (64 - base_log) as nat,
    ) % (vstd::arithmetic::power2::pow2(base_log as nat) as int) == pt[i] by {
        lemma_gadget_decode_near(pt[i], phase[i], base_log);
    }
}

} // verus!

