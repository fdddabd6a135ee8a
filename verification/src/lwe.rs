//! LWE ciphertexts and keys, sample extraction from RLWE, LWE key switching
//! in both directions, the homomorphic indicator, and the blind-rotation
//! loop that bootstraps a gate ciphertext.
use vstd::prelude::*;
use crate::{Scalar, spec_q, wadd, wsub, wmul, wneg, sabs, Context, ctx_params_unchanged};
use crate::poly::{
    seq_wadd, seq_wsub, seq_wscale, ncmul, is_binary_poly, is_zero_poly, poly_zero,
    update_with_wrapping_add, update_with_wrapping_sub, mono_mul, mono_div, zero_seq, mul_const,
};
use crate::rlwe::{RLWECiphertext, RLWESecretKey, lg2, mod_switch, pbs_modulus_switch};
use crate::rgsw::{
    RGSWCiphertext, rgsw_encrypts, rgsw_masks, rgsw_bodies, ext_partial_mask, ext_partial_body,
    const_poly, spec_decompose, decompose, rgsw_encrypts_halves,
};

verus! {

/// Partial inner product of an LWE mask with a key: the first `j` terms.
pub open spec fn lwe_dot(a: Seq<Scalar>, s: Seq<Scalar>, j: int) -> int
    decreases j,
{
    if j <= 0 {
        0
    } else {
        lwe_dot(a, s, j - 1) + a[j - 1] * s[j - 1]
    }
}

/// The phase `b - <a, s>` of an LWE ciphertext: the noisy plaintext.
pub open spec fn lwe_phase(mask: Seq<Scalar>, body: Scalar, s: Seq<Scalar>) -> Scalar {
    wsub(body, (lwe_dot(mask, s, mask.len() as int) % spec_q()) as Scalar)
}

/// The inner product of a mask with a key, wrapping.
pub fn lwe_dot_exec(a: &Vec<Scalar>, s: &Vec<Scalar>) -> (r: Scalar)
    requires
        a@.len() == s@.len(),
    ensures
        r as int == lwe_dot(a@, s@, a@.len() as int) % spec_q(),
{
    let n = a.len();
    let mut acc: Scalar = 0;
    let mut j: usize = 0;
    proof {
        vstd::arithmetic::div_mod::lemma_small_mod(0nat, spec_q() as nat);
    }
    while j < n
        invariant
            n == a@.len(),
            n == s@.len(),
            j <= n,
            acc as int == lwe_dot(a@, s@, j as int) % spec_q(),
        decreases n - j,
    {
        let t = a[j].wrapping_mul(s[j]);
        let acc2 = acc.wrapping_add(t);
        proof {
            let pj = lwe_dot(a@, s@, j as int);
            let prod = a@[j as int] * s@[j as int];
            vstd::arithmetic::div_mod::lemma_add_mod_noop(pj, prod, spec_q());
            vstd::arithmetic::div_mod::lemma_mod_twice(pj, spec_q());
            vstd::arithmetic::div_mod::lemma_mod_twice(prod, spec_q());
        }
        acc = acc2;
        j = j + 1;
    }
    acc
}

/// An LWE ciphertext: a mask vector `a` and a body scalar `b`. It encrypts
/// `m` under key `s` when `b - <a, s> = m + e` for small noise `e`.
pub struct LWECiphertext {
    pub mask: Vec<Scalar>,
    pub body: Scalar,
}

impl LWECiphertext {
    /// The mask has dimension `n`.
    pub open spec fn wf(&self, n: nat) -> bool {
        self.mask@.len() == n
    }

    /// The zero ciphertext of total size `size` (mask plus one body word).
    pub fn allocate(size: usize) -> (r: LWECiphertext)
        requires
            size >= 1,
        ensures
            r.wf((size - 1) as nat),
            is_zero_poly(r.mask@),
            r.body == 0,
    {
        LWECiphertext { mask: poly_zero(size - 1), body: 0 }
    }

    /// The length of the mask plus one for the body.
    pub fn lwe_size(&self) -> (r: usize)
        requires
            self.mask@.len() < 0xffff_ffff,
        ensures
            r == self.mask@.len() + 1,
    {
        self.mask.len() + 1
    }

    /// The body scalar.
    pub fn get_body(&self) -> (r: Scalar)
        ensures
            r == self.body,
    {
        self.body
    }

    /// Overwrite the body scalar.
    pub fn set_body(&mut self, v: Scalar)
        ensures
            final(self).body == v,
            final(self).mask@ == old(self).mask@,
    {
        self.body = v;
    }

    /// Read access to the mask.
    pub fn get_mask(&self) -> (r: &Vec<Scalar>)
        ensures
            r@ == self.mask@,
    {
        &self.mask
    }

    /// Reset mask and body to zero.
    pub fn clear(&mut self)
        ensures
            final(self).mask@.len() == old(self).mask@.len(),
            is_zero_poly(final(self).mask@),
            final(self).body == 0,
    {
        let n = self.mask.len();
        self.mask = poly_zero(n);
        self.body = 0;
    }

    /// Extract the LWE encryption of the `n_th` coefficient of an RLWE
    /// ciphertext: the body is that coefficient of the RLWE body, and the
    /// mask reads the RLWE mask backwards with a sign flip past the wrap.
    pub fn fill_with_sample_extract(&mut self, c: &RLWECiphertext, n_th: usize)
        requires
            1 <= c.mask@.len() <= 0x1000_0000,
            c.body@.len() == c.mask@.len(),
            n_th < c.mask@.len(),
        ensures
            final(self).mask@.len() == c.mask@.len(),
            final(self).body == c.body@[n_th as int],
            forall|j: int|
                0 <= j < c.mask@.len() ==> final(self).mask@[j] == (if j <= n_th {
                    c.mask@[n_th - j]
                } else {
                    wneg(c.mask@[c.mask@.len() + n_th - j])
                }),
    {
        let n = c.mask.len();
        let mut mask: Vec<Scalar> = Vec::new();
        let mut j: usize = 0;
        while j < n
            invariant
                n == c.mask@.len(),
                n <= 0x1000_0000,
                n_th < n,
                j <= n,
                mask@.len() == j,
                forall|t: int|
                    0 <= t < j ==> mask@[t] == (if t <= n_th {
                        c.mask@[n_th - t]
                    } else {
                        wneg(c.mask@[n + n_th - t])
                    }),
            decreases n - j,
        {
            let v: Scalar;
            if j <= n_th {
                v = c.mask[n_th - j];
            } else {
                v = 0u64.wrapping_sub(c.mask[n + n_th - j]);
            }
            mask.push(v);
            j = j + 1;
        }
        self.mask = mask;
        self.body = c.body[n_th];
    }

    /// Extract the LWE encryption of the constant coefficient.
    pub fn fill_with_const_sample_extract(&mut self, c: &RLWECiphertext)
        requires
            1 <= c.mask@.len() <= 0x1000_0000,
            c.body@.len() == c.mask@.len(),
        ensures
            final(self).mask@.len() == c.mask@.len(),
            final(self).body == c.body@[0],
            forall|j: int|
                0 <= j < c.mask@.len() ==> final(self).mask@[j] == (if j == 0 {
                    c.mask@[0]
                } else {
                    wneg(c.mask@[c.mask@.len() - j])
                }),
    {
        self.fill_with_sample_extract(c, 0);
    }

    /// Multiply mask and body by a cleartext scalar, wrapping.
    pub fn update_with_scalar_mul(&mut self, value: Scalar)
        ensures
            final(self).mask@ == seq_wscale(old(self).mask@, value),
            final(self).body == wmul(old(self).body, value),
    {
        mul_const(&mut self.mask, value);
        self.body = self.body.wrapping_mul(value);
    }

    /// Componentwise wrapping addition of another ciphertext.
    pub fn update_with_add(&mut self, ct: LWECiphertext)
        requires
            old(self).mask@.len() == ct.mask@.len(),
        ensures
            final(self).mask@ == seq_wadd(old(self).mask@, ct.mask@),
            final(self).body == wadd(old(self).body, ct.body),
    {
        update_with_wrapping_add(&mut self.mask, &ct.mask);
        self.body = self.body.wrapping_add(ct.body);
    }

    /// Componentwise wrapping subtraction of another ciphertext.
    pub fn update_with_sub(&mut self, ct: LWECiphertext)
        requires
            old(self).mask@.len() == ct.mask@.len(),
        ensures
            final(self).mask@ == seq_wsub(old(self).mask@, ct.mask@),
            final(self).body == wsub(old(self).body, ct.body),
    {
        update_with_wrapping_sub(&mut self.mask, &ct.mask);
        self.body = self.body.wrapping_sub(ct.body);
    }

    /// Negate mask and body, wrapping.
    pub fn update_with_neg(&mut self)
        ensures
            final(self).mask@.len() == old(self).mask@.len(),
            forall|j: int|
                0 <= j < old(self).mask@.len() ==> final(self).mask@[j] == wneg(
                    old(self).mask@[j],
                ),
            final(self).body == wneg(old(self).body),
    {
        let n = self.mask.len();
        let mut i: usize = 0;
        while i < n
            invariant
                n == self.mask@.len(),
                i <= n,
                forall|j: int| 0 <= j < i ==> self.mask@[j] == wneg(old(self).mask@[j]),
                forall|j: int| i <= j < n ==> self.mask@[j] == old(self).mask@[j],
                self.body == old(self).body,
            decreases n - i,
        {
            let v = 0u64.wrapping_sub(self.mask[i]);
            self.mask.set(i, v);
            i = i + 1;
        }
        self.body = 0u64.wrapping_sub(self.body);
    }
}

/// Extract the LWE encryption of the constant coefficient of an RLWE
/// ciphertext into `lwe`.
pub fn constant_sample_extract(lwe: &mut LWECiphertext, glwe: &RLWECiphertext)
    requires
        1 <= glwe.mask@.len() <= 0x1000_0000,
        glwe.body@.len() == glwe.mask@.len(),
    ensures
        final(lwe).mask@.len() == glwe.mask@.len(),
        final(lwe).body == glwe.body@[0],
        forall|j: int|
            0 <= j < glwe.mask@.len() ==> final(lwe).mask@[j] == (if j == 0 {
                glwe.mask@[0]
            } else {
                wneg(glwe.mask@[glwe.mask@.len() - j])
            }),
{
    lwe.fill_with_const_sample_extract(glwe);
}

/// An LWE ciphertext over `Z_{2^32}`, for the modulus-switched final stage.
pub struct LWECiphertext32 {
    pub mask: Vec<u32>,
    pub body: u32,
}

/// Wrapping addition in `Z_{2^32}`.
pub open spec fn wadd32(a: u32, b: u32) -> u32 {
    ((a + b) % 0x1_0000_0000) as u32
}

/// Wrapping subtraction in `Z_{2^32}`.
pub open spec fn wsub32(a: u32, b: u32) -> u32 {
    ((a - b) % 0x1_0000_0000) as u32
}

/// Wrapping multiplication in `Z_{2^32}`.
pub open spec fn wmul32(a: u32, b: u32) -> u32 {
    ((a * b) % 0x1_0000_0000) as u32
}

impl LWECiphertext32 {
    /// The zero ciphertext of total size `size`.
    pub fn allocate(size: usize) -> (r: LWECiphertext32)
        requires
            size >= 1,
        ensures
            r.mask@.len() == size - 1,
            forall|j: int| 0 <= j < r.mask@.len() ==> r.mask@[j] == 0,
            r.body == 0,
    {
        let n = size - 1;
        let mut mask: Vec<u32> = Vec::new();
        let mut i: usize = 0;
        while i < n
            invariant
                i <= n,
                mask@.len() == i,
                forall|j: int| 0 <= j < i ==> mask@[j] == 0,
            decreases n - i,
        {
            mask.push(0);
            i = i + 1;
        }
        LWECiphertext32 { mask, body: 0 }
    }

    /// The length of the mask plus one for the body.
    pub fn lwe_size(&self) -> (r: usize)
        requires
            self.mask@.len() < 0xffff_ffff,
        ensures
            r == self.mask@.len() + 1,
    {
        self.mask.len() + 1
    }

    /// The body scalar.
    pub fn get_body(&self) -> (r: u32)
        ensures
            r == self.body,
    {
        self.body
    }

    /// Overwrite the body scalar.
    pub fn set_body(&mut self, v: u32)
        ensures
            final(self).body == v,
            final(self).mask@ == old(self).mask@,
    {
        self.body = v;
    }

    /// Read access to the mask.
    pub fn get_mask(&self) -> (r: &Vec<u32>)
        ensures
            r@ == self.mask@,
    {
        &self.mask
    }

    /// Overwrite one mask element.
    pub fn set_mask_element(&mut self, i: usize, v: u32)
        requires
            i < old(self).mask@.len(),
        ensures
            final(self).mask@ == old(self).mask@.update(i as int, v),
            final(self).body == old(self).body,
    {
        self.mask.set(i, v);
    }

    /// Reset mask and body to zero.
    pub fn clear(&mut self)
        ensures
            final(self).mask@.len() == old(self).mask@.len(),
            forall|j: int| 0 <= j < final(self).mask@.len() ==> final(self).mask@[j] == 0,
            final(self).body == 0,
    {
        let n = self.mask.len();
        let mut mask: Vec<u32> = Vec::new();
        let mut i: usize = 0;
        while i < n
            invariant
                i <= n,
                mask@.len() == i,
                forall|j: int| 0 <= j < i ==> mask@[j] == 0,
            decreases n - i,
        {
            mask.push(0);
            i = i + 1;
        }
        self.mask = mask;
        self.body = 0;
    }

    /// Multiply mask and body by a cleartext scalar, wrapping.
    pub fn update_with_scalar_mul(&mut self, value: u32)
        ensures
            final(self).mask@.len() == old(self).mask@.len(),
            forall|j: int|
                0 <= j < old(self).mask@.len() ==> final(self).mask@[j] == wmul32(
                    old(self).mask@[j],
                    value,
                ),
            final(self).body == wmul32(old(self).body, value),
    {
        let n = self.mask.len();
        let mut i: usize = 0;
        while i < n
            invariant
                n == self.mask@.len(),
                i <= n,
                forall|j: int| 0 <= j < i ==> self.mask@[j] == wmul32(old(self).mask@[j], value),
                forall|j: int| i <= j < n ==> self.mask@[j] == old(self).mask@[j],
                self.body == old(self).body,
            decreases n - i,
        {
            let v = self.mask[i].wrapping_mul(value);
            self.mask.set(i, v);
            i = i + 1;
        }
        self.body = self.body.wrapping_mul(value);
    }

    /// Componentwise wrapping addition of another ciphertext.
    pub fn update_with_add(&mut self, ct: LWECiphertext32)
        requires
            old(self).mask@.len() == ct.mask@.len(),
        ensures
            final(self).mask@.len() == old(self).mask@.len(),
            forall|j: int|
                0 <= j < old(self).mask@.len() ==> final(self).mask@[j] == wadd32(
                    old(self).mask@[j],
                    ct.mask@[j],
                ),
            final(self).body == wadd32(old(self).body, ct.body),
    {
        let n = self.mask.len();
        let mut i: usize = 0;
        while i < n
            invariant
                n == self.mask@.len(),
                n == ct.mask@.len(),
                i <= n,
                forall|j: int|
                    0 <= j < i ==> self.mask@[j] == wadd32(old(self).mask@[j], ct.mask@[j]),
                forall|j: int| i <= j < n ==> self.mask@[j] == old(self).mask@[j],
                self.body == old(self).body,
            decreases n - i,
        {
            let v = self.mask[i].wrapping_add(ct.mask[i]);
            self.mask.set(i, v);
            i = i + 1;
        }
        self.body = self.body.wrapping_add(ct.body);
    }

    /// Componentwise wrapping subtraction of another ciphertext.
    pub fn update_with_sub(&mut self, ct: LWECiphertext32)
        requires
            old(self).mask@.len() == ct.mask@.len(),
        ensures
            final(self).mask@.len() == old(self).mask@.len(),
            forall|j: int|
                0 <= j < old(self).mask@.len() ==> final(self).mask@[j] == wsub32(
                    old(self).mask@[j],
                    ct.mask@[j],
                ),
            final(self).body == wsub32(old(self).body, ct.body),
    {
        let n = self.mask.len();
        let mut i: usize = 0;
        while i < n
            invariant
                n == self.mask@.len(),
                n == ct.mask@.len(),
                i <= n,
                forall|j: int|
                    0 <= j < i ==> self.mask@[j] == wsub32(old(self).mask@[j], ct.mask@[j]),
                forall|j: int| i <= j < n ==> self.mask@[j] == old(self).mask@[j],
                self.body == old(self).body,
            decreases n - i,
        {
            let v = self.mask[i].wrapping_sub(ct.mask[i]);
            self.mask.set(i, v);
            i = i + 1;
        }
        self.body = self.body.wrapping_sub(ct.body);
    }

    /// Negate mask and body, wrapping.
    pub fn update_with_neg(&mut self)
        ensures
            final(self).mask@.len() == old(self).mask@.len(),
            forall|j: int|
                0 <= j < old(self).mask@.len() ==> final(self).mask@[j] == wsub32(
                    0,
                    old(self).mask@[j],
                ),
            final(self).body == wsub32(0, old(self).body),
    {
        let n = self.mask.len();
        let mut i: usize = 0;
        while i < n
            invariant
                n == self.mask@.len(),
                i <= n,
                forall|j: int| 0 <= j < i ==> self.mask@[j] == wsub32(0, old(self).mask@[j]),
                forall|j: int| i <= j < n ==> self.mask@[j] == old(self).mask@[j],
                self.body == old(self).body,
            decreases n - i,
        {
            let v = 0u32.wrapping_sub(self.mask[i]);
            self.mask.set(i, v);
            i = i + 1;
        }
        self.body = 0u32.wrapping_sub(self.body);
    }
}

/// Partial inner product of a 32-bit mask with the low words of a key.
pub open spec fn lwe_dot32(a: Seq<u32>, s: Seq<Scalar>, j: int) -> int
    decreases j,
{
    if j <= 0 {
        0
    } else {
        lwe_dot32(a, s, j - 1) + a[j - 1] * (s[j - 1] % 0x1_0000_0000)
    }
}

/// The phase `b - <a, s>` of a 32-bit modulus-switched LWE ciphertext, over
/// the key's coefficients reduced to their low words.
pub open spec fn lwe_phase32(mask: Seq<u32>, body: u32, s: Seq<Scalar>) -> u32 {
    wsub32(body, (lwe_dot32(mask, s, mask.len() as int) % 0x1_0000_0000) as u32)
}

/// Switch an LWE ciphertext from `Z_q` down to `Z_{2^32}`: round every
/// component half up to the nearer multiple of `2^32` and keep the high
/// word. This narrows a refreshed ciphertext for the 32-bit stage.
pub fn mod_switch_32(ct: &LWECiphertext) -> (r: LWECiphertext32)
    ensures
        r.mask@.len() == ct.mask@.len(),
        forall|i: int|
            0 <= i < ct.mask@.len() ==> (#[trigger] r.mask@[i]) as int == crate::round_div_pow2(
                ct.mask@[i],
                32,
            ) % 0x1_0000_0000,
        r.body as int == crate::round_div_pow2(ct.body, 32) % 0x1_0000_0000,
{
    let n = ct.mask.len();
    let mut mask: Vec<u32> = Vec::new();
    let mut i: usize = 0;
    while i < n
        invariant
            n == ct.mask@.len(),
            i <= n,
            mask@.len() == i,
            forall|j: int|
                0 <= j < i ==> (#[trigger] mask@[j]) as int == crate::round_div_pow2(
                    ct.mask@[j],
                    32,
                ) % 0x1_0000_0000,
        decreases n - i,
    {
        let t = crate::round_shift(ct.mask[i], 32);
        mask.push((t % 0x1_0000_0000) as u32);
        i = i + 1;
    }
    let tb = crate::round_shift(ct.body, 32);
    let body = (tb % 0x1_0000_0000) as u32;
    LWECiphertext32 { mask, body }
}

/// An LWE secret key: a binary vector.
pub struct LWESecretKey {
    pub key: Vec<Scalar>,
}

impl LWESecretKey {
    /// Generate a key with uniform binary coefficients.
    pub fn generate_binary(
        lwe_dimension: usize,
        generator: &mut crate::rng::SecretRandomGenerator,
    ) -> (r: LWESecretKey)
        ensures
            r.key@.len() == lwe_dimension,
            is_binary_poly(r.key@),
    {
        LWESecretKey { key: generator.gen_binary_vec(lwe_dimension) }
    }

    /// The all-zero key.
    pub fn zero(glwe_size: usize) -> (r: LWESecretKey)
        ensures
            r.key@.len() == glwe_size,
            is_zero_poly(r.key@),
    {
        LWESecretKey { key: poly_zero(glwe_size) }
    }

    /// The key dimension.
    pub fn key_size(&self) -> (r: usize)
        ensures
            r == self.key@.len(),
    {
        self.key.len()
    }

    /// Read access to the key coefficients.
    pub fn as_tensor(&self) -> (r: &Vec<Scalar>)
        ensures
            r@ == self.key@,
    {
        &self.key
    }

    /// Accumulate another key share into this key, coefficientwise.
    pub fn update_with_wrapping_add(&mut self, other: &LWESecretKey)
        requires
            old(self).key@.len() == other.key@.len(),
        ensures
            final(self).key@ == seq_wadd(old(self).key@, other.key@),
    {
        update_with_wrapping_add(&mut self.key, &other.key);
    }

    /// Reinterpret the key as an RLWE secret key with the same coefficients.
    pub fn to_rlwe_sk(&self) -> (r: RLWESecretKey)
        ensures
            r.poly@ == self.key@,
    {
        let mut sk = RLWESecretKey::zero(self.key.len());
        sk.fill_with_copy(&self.key);
        sk
    }

    /// Encrypt `pt`: draw a uniform mask and bounded noise, and set the body
    /// to `<a, s> + pt + e`.
    #[verifier::rlimit(60)]
    pub fn encrypt_lwe(
        &self,
        output: &mut LWECiphertext,
        pt: Scalar,
        noise_bits: u64,
        generator: &mut crate::rng::EncryptionRandomGenerator,
    )
        requires
            noise_bits <= 60,
        ensures
            final(output).wf(self.key@.len()),
            sabs(wsub(lwe_phase(final(output).mask@, final(output).body, self.key@), pt)) <= (1u64
                << noise_bits) as int,
    {
        let n = self.key.len();
        let a = generator.gen_uniform_vec(n);
        let e = generator.gen_noise(noise_bits);
        let dot = lwe_dot_exec(&a, &self.key);
        let body = dot.wrapping_add(pt).wrapping_add(e);
        proof {
            assert(body == wadd(wadd(dot, pt), e));
            crate::lemma_wadd_assoc(dot, pt, e);
            crate::lemma_wsub_cancel(dot, wadd(pt, e));
            assert(wsub(body, dot) == wadd(pt, e));
            crate::lemma_wadd_comm(pt, e);
            crate::lemma_wsub_cancel(pt, e);
            assert(wsub(wadd(pt, e), pt) == e);
        }
        output.mask = a;
        output.body = body;
        proof {
            assert(lwe_phase(output.mask@, output.body, self.key@) == wadd(pt, e));
        }
    }

    /// Binary-encode `pt` and encrypt it at the context noise width.
    pub fn binary_encrypt_lwe(&self, output: &mut LWECiphertext, pt: Scalar, ctx: &mut Context)
        requires
            old(ctx).wf(),
            pt == 0 || pt == 1,
        ensures
            final(output).wf(self.key@.len()),
            sabs(
                wsub(
                    lwe_phase(final(output).mask@, final(output).body, self.key@),
                    wmul(pt, crate::BINARY_DELTA),
                ),
            ) <= (1u64 << old(ctx).std) as int,
            ctx_params_unchanged(old(ctx), final(ctx)),
    {
        let mut encoded = pt;
        crate::binary_encode(&mut encoded);
        let noise_bits = ctx.std;
        self.encrypt_lwe(output, encoded, noise_bits, &mut ctx.encryption_generator);
    }

    /// Decrypt: return the phase `b - <a, s>`.
    pub fn decrypt_lwe(&self, output: &mut Scalar, ct: &LWECiphertext)
        requires
            ct.wf(self.key@.len()),
        ensures
            *final(output) == lwe_phase(ct.mask@, ct.body, self.key@),
    {
        let dot = lwe_dot_exec(&ct.mask, &self.key);
        *output = ct.body.wrapping_sub(dot);
    }

    /// Decrypt with explicitly wrapping arithmetic: the same phase.
    pub fn decrypt_wrapping_lwe(&self, pt: &mut Scalar, encrypted: &LWECiphertext)
        requires
            encrypted.wf(self.key@.len()),
        ensures
            *final(pt) == lwe_phase(encrypted.mask@, encrypted.body, self.key@),
    {
        self.decrypt_lwe(pt, encrypted);
    }

    /// Decrypt and binary-decode.
    pub fn binary_decrypt_lwe(&self, pt: &mut Scalar, encrypted: &LWECiphertext)
        requires
            encrypted.wf(self.key@.len()),
        ensures
            *final(pt) == crate::binary_decode_spec(
                lwe_phase(encrypted.mask@, encrypted.body, self.key@),
            ),
    {
        self.decrypt_lwe(pt, encrypted);
        crate::binary_decode(pt);
    }
}

/// Decrypt `ct` and report the noise magnitude against the expected encoded
/// plaintext.
pub fn compute_noise_lwe(sk: &LWESecretKey, ct: &LWECiphertext, encoded_ptxt: Scalar) -> (r: Scalar)
    requires
        ct.wf(sk.key@.len()),
    ensures
        r as int == sabs(wsub(lwe_phase(ct.mask@, ct.body, sk.key@), encoded_ptxt)),
{
    let mut pt: Scalar = 0;
    sk.decrypt_wrapping_lwe(&mut pt, ct);
    let error = pt.wrapping_sub(encoded_ptxt);
    crate::rlwe::sabs_exec(error)
}

/// A shared-mask LWE public key.
pub struct LWEPublicKey {
    pub rows: Vec<LWECiphertext>,
}

/// The wrapping sum of the masks of the rows selected by `sel`, over the
/// first `j` rows.
pub open spec fn lwe_pk_partial_mask(
    rows: Seq<LWECiphertext>,
    sel: Seq<Scalar>,
    j: int,
    n: nat,
) -> Seq<Scalar>
    decreases j,
{
    if j <= 0 {
        zero_seq(n)
    } else if sel[j - 1] == 1 {
        seq_wadd(lwe_pk_partial_mask(rows, sel, j - 1, n), rows[j - 1].mask@)
    } else {
        lwe_pk_partial_mask(rows, sel, j - 1, n)
    }
}

/// The matching sum of the selected bodies.
pub open spec fn lwe_pk_partial_body(rows: Seq<LWECiphertext>, sel: Seq<Scalar>, j: int) -> Scalar
    decreases j,
{
    if j <= 0 {
        0 as Scalar
    } else if sel[j - 1] == 1 {
        wadd(lwe_pk_partial_body(rows, sel, j - 1), rows[j - 1].body)
    } else {
        lwe_pk_partial_body(rows, sel, j - 1)
    }
}

/// Every row of an LWE public key encrypts zero under `s`, with noise of
/// magnitude at most `bound`.
pub open spec fn lwe_pk_rows_encrypt_zero(rows: Seq<LWECiphertext>, s: Seq<Scalar>, bound: int) -> bool {
    forall|r: int|
        0 <= r < rows.len() ==> sabs(lwe_phase((#[trigger] rows[r]).mask@, rows[r].body, s))
            <= bound
}

/// The inner product of the zero mask with any key vanishes.
proof fn lemma_lwe_dot_zero(s: Seq<Scalar>, j: int, n: nat)
    requires
        0 <= j <= n,
        s.len() == n,
    ensures
        lwe_dot(zero_seq(n), s, j) == 0,
    decreases j,
{
    if j > 0 {
        lemma_lwe_dot_zero(s, j - 1, n);
        assert(zero_seq(n)[j - 1] == 0);
        vstd::arithmetic::mul::lemma_mul_by_zero_is_zero(s[j - 1] as int);
    }
}

/// The phase of a selected-row sum stays within `j * bound` of zero,
/// whatever the selector picks.
proof fn lemma_lwe_pk_partial_phase(
    rows: Seq<LWECiphertext>,
    sel: Seq<Scalar>,
    s: Seq<Scalar>,
    j: int,
    bound: int,
)
    requires
        sel.len() >= j,
        rows.len() >= j,
        0 <= j,
        0 <= bound,
        is_binary_poly(sel),
        forall|r: int| 0 <= r < rows.len() ==> (#[trigger] rows[r]).wf(s.len()),
        lwe_pk_rows_encrypt_zero(rows, s, bound),
        j * bound < 0x4000_0000_0000_0000,
    ensures
        lwe_pk_partial_mask(rows, sel, j, s.len()).len() == s.len(),
        sabs(
            lwe_phase(
                lwe_pk_partial_mask(rows, sel, j, s.len()),
                lwe_pk_partial_body(rows, sel, j),
                s,
            ),
        ) <= j * bound,
    decreases j,
{
    let n = s.len();
    if j == 0 {
        lemma_lwe_dot_zero(s, n as int, n);
        vstd::arithmetic::div_mod::lemma_small_mod(0nat, spec_q() as nat);
        assert(lwe_phase(zero_seq(n), 0, s) == wsub(0, 0));
        crate::lemma_wsub_zero(0);
    } else {
        vstd::arithmetic::mul::lemma_mul_inequality(j - 1, j, bound);
        lemma_lwe_pk_partial_phase(rows, sel, s, j - 1, bound);
        vstd::arithmetic::mul::lemma_mul_is_distributive_add(bound, j - 1, 1);
        assert(j * bound == (j - 1) * bound + bound) by {
            vstd::arithmetic::mul::lemma_mul_is_commutative(bound, j);
            vstd::arithmetic::mul::lemma_mul_is_commutative(bound, j - 1);
        }
        vstd::arithmetic::mul::lemma_mul_inequality(0, j - 1, bound);
        let prev_ph = lwe_phase(
            lwe_pk_partial_mask(rows, sel, j - 1, n),
            lwe_pk_partial_body(rows, sel, j - 1),
            s,
        );
        if sel[j - 1] == 1 {
            assert((#[trigger] rows[j - 1]).wf(n));
            lemma_lwe_add_homomorphic(
                lwe_pk_partial_mask(rows, sel, j - 1, n),
                lwe_pk_partial_body(rows, sel, j - 1),
                rows[j - 1].mask@,
                rows[j - 1].body,
                s,
            );
            let row_ph = lwe_phase(rows[j - 1].mask@, rows[j - 1].body, s);
            assert(sabs(row_ph) <= bound);
            crate::lemma_sabs_wadd(prev_ph, row_ph);
        }
    }
}

/// Round trip under the shared-mask LWE public key: for every binary
/// selector the key encryption could have drawn, and every bit, decrypting
/// and decoding gives the bit back, as long as each key row encrypts zero
/// with noise within `bound` and the accumulated noise stays inside the
/// decoding window (just under `q/4`).
pub proof fn lemma_lwe_pk_binary_round_trip(
    rows: Seq<LWECiphertext>,
    sel: Seq<Scalar>,
    pt: Scalar,
    s: Seq<Scalar>,
    bound: int,
)
    requires
        pt == 0 || pt == 1,
        sel.len() == rows.len(),
        is_binary_poly(sel),
        forall|r: int| 0 <= r < rows.len() ==> (#[trigger] rows[r]).wf(s.len()),
        lwe_pk_rows_encrypt_zero(rows, s, bound),
        0 <= bound,
        rows.len() * bound <= 0x3fff_ffff_ffff_fffd,
    ensures
        crate::binary_decode_spec(
            lwe_phase(
                lwe_pk_partial_mask(rows, sel, rows.len() as int, s.len()),
                wadd(
                    lwe_pk_partial_body(rows, sel, rows.len() as int),
                    crate::wmul(pt, crate::BINARY_DELTA),
                ),
                s,
            ),
        ) == pt,
{
    let n = s.len();
    let m = rows.len() as int;
    lemma_lwe_pk_partial_phase(rows, sel, s, m, bound);
    let pm = lwe_pk_partial_mask(rows, sel, m, n);
    let pb = lwe_pk_partial_body(rows, sel, m);
    let ph = lwe_phase(pm, pb, s);
    let enc = crate::wmul(pt, crate::BINARY_DELTA);
    let dq = (lwe_dot(pm, s, n as int) % spec_q()) as Scalar;
    crate::lemma_wadd_then_wsub(pb, enc, dq);
    assert(lwe_phase(pm, wadd(pb, enc), s) == wadd(ph, enc));
    crate::lemma_wadd_comm(ph, enc);
    crate::lemma_wsub_cancel(enc, ph);
    assert(wsub(wadd(ph, enc), enc) == ph);
    crate::rlwe::lemma_binary_decode_near(pt, wadd(ph, enc));
}

impl LWEPublicKey {
    /// All rows have mask dimension `n`.
    pub open spec fn wf(&self, n: nat) -> bool {
        forall|r: int| 0 <= r < self.rows@.len() ==> (#[trigger] self.rows@[r]).wf(n)
    }

    /// `m` zero rows of total size `n` each.
    pub fn allocate(n: usize, m: usize) -> (r: LWEPublicKey)
        requires
            n >= 1,
        ensures
            r.rows@.len() == m,
            r.wf((n - 1) as nat),
            forall|i: int|
                0 <= i < m ==> is_zero_poly(#[trigger] r.rows@[i].mask@) && r.rows@[i].body == 0,
    {
        let mut rows: Vec<LWECiphertext> = Vec::new();
        let mut i: usize = 0;
        while i < m
            invariant
                n >= 1,
                i <= m,
                rows@.len() == i,
                forall|j: int| 0 <= j < i ==> (#[trigger] rows@[j]).wf((n - 1) as nat),
                forall|j: int|
                    0 <= j < i ==> is_zero_poly(#[trigger] rows@[j].mask@) && rows@[j].body == 0,
            decreases m - i,
        {
            rows.push(LWECiphertext::allocate(n));
            i = i + 1;
        }
        LWEPublicKey { rows }
    }

    /// The number of rows.
    pub fn get_size(&self) -> (r: usize)
        ensures
            r == self.rows@.len(),
    {
        self.rows.len()
    }

    /// The mask dimension of a row.
    pub fn get_numberof_mask(&self) -> (r: usize)
        requires
            self.rows@.len() >= 1,
        ensures
            r == self.rows@[0].mask@.len(),
    {
        self.rows[0].mask.len()
    }

    /// Copy the shared masks of the global key into this key; bodies stay.
    pub fn update_with_global_mask(&mut self, global_pk: &LWEPublicKey, ctx: &Context)
        requires
            old(self).rows@.len() == ctx.m,
            global_pk.rows@.len() == ctx.m,
        ensures
            final(self).rows@.len() == ctx.m,
            forall|i: int|
                0 <= i < ctx.m ==> (#[trigger] final(self).rows@[i]).mask@
                    == global_pk.rows@[i].mask@,
            forall|i: int|
                0 <= i < ctx.m ==> (#[trigger] final(self).rows@[i]).body == old(
                    self,
                ).rows@[i].body,
    {
        let m = ctx.m;
        let mut i: usize = 0;
        while i < m
            invariant
                m == ctx.m,
                self.rows@.len() == m,
                global_pk.rows@.len() == m,
                i <= m,
                forall|j: int|
                    0 <= j < i ==> (#[trigger] self.rows@[j]).mask@ == global_pk.rows@[j].mask@,
                forall|j: int| 0 <= j < i ==> (#[trigger] self.rows@[j]).body == old(self).rows@[j].body,
                forall|j: int|
                    i <= j < m ==> (#[trigger] self.rows@[j]).mask@ == old(self).rows@[j].mask@
                        && self.rows@[j].body == old(self).rows@[j].body,
            decreases m - i,
        {
            let new_mask = global_pk.rows[i].mask.clone();
            proof {
                assert(new_mask@ =~= global_pk.rows@[i as int].mask@);
            }
            let row = &mut self.rows[i];
            row.mask = new_mask;
            i = i + 1;
        }
    }

    /// Add the bodies of another key share into this key's bodies.
    pub fn update_body_with_pk(&mut self, pk: &LWEPublicKey, ctx: &Context)
        requires
            old(self).rows@.len() == ctx.m,
            pk.rows@.len() == ctx.m,
        ensures
            final(self).rows@.len() == ctx.m,
            forall|i: int|
                0 <= i < ctx.m ==> (#[trigger] final(self).rows@[i]).body == wadd(
                    old(self).rows@[i].body,
                    pk.rows@[i].body,
                ),
            forall|i: int|
                0 <= i < ctx.m ==> (#[trigger] final(self).rows@[i]).mask@ == old(
                    self,
                ).rows@[i].mask@,
    {
        let m = ctx.m;
        let mut i: usize = 0;
        while i < m
            invariant
                m == ctx.m,
                self.rows@.len() == m,
                pk.rows@.len() == m,
                i <= m,
                forall|j: int|
                    0 <= j < i ==> (#[trigger] self.rows@[j]).body == wadd(
                        old(self).rows@[j].body,
                        pk.rows@[j].body,
                    ),
                forall|j: int| 0 <= j < i ==> (#[trigger] self.rows@[j]).mask@ == old(self).rows@[j].mask@,
                forall|j: int|
                    i <= j < m ==> (#[trigger] self.rows@[j]).mask@ == old(self).rows@[j].mask@
                        && self.rows@[j].body == old(self).rows@[j].body,
            decreases m - i,
        {
            let sum = self.rows[i].body.wrapping_add(pk.rows[i].body);
            let row = &mut self.rows[i];
            row.body = sum;
            i = i + 1;
        }
    }

    /// The bodies of the first `m` rows.
    pub fn get_body(&self, m: usize) -> (r: Vec<Scalar>)
        requires
            m <= self.rows@.len(),
        ensures
            r@.len() == m,
            forall|i: int| 0 <= i < m ==> r@[i] == self.rows@[i].body,
    {
        let mut body: Vec<Scalar> = Vec::new();
        let mut i: usize = 0;
        while i < m
            invariant
                m <= self.rows@.len(),
                i <= m,
                body@.len() == i,
                forall|j: int| 0 <= j < i ==> body@[j] == self.rows@[j].body,
            decreases m - i,
        {
            body.push(self.rows[i].body);
            i = i + 1;
        }
        body
    }

    /// True when the first `m` masks of the two keys agree.
    pub fn compare_mask(&self, pk: &LWEPublicKey, m: usize) -> (r: bool)
        requires
            m <= self.rows@.len(),
            m <= pk.rows@.len(),
        ensures
            r == (forall|i: int| 0 <= i < m ==> (#[trigger] self.rows@[i]).mask@ =~= pk.rows@[i].mask@),
    {
        let mut i: usize = 0;
        let mut ok = true;
        while i < m
            invariant
                m <= self.rows@.len(),
                m <= pk.rows@.len(),
                i <= m,
                ok == (forall|j: int| 0 <= j < i ==> (#[trigger] self.rows@[j]).mask@ =~= pk.rows@[j].mask@),
            decreases m - i,
        {
            let same = crate::rlwe::eq_vec(&self.rows[i].mask, &pk.rows[i].mask);
            ok = ok && same;
            i = i + 1;
        }
        ok
    }

    /// Encrypt `pt` under the public key: draw a fresh binary selector, sum
    /// the selected rows into the ciphertext, and add `pt` to the body.
    pub fn encrypt_lwe(
        &self,
        encrypted: &mut LWECiphertext,
        pt: Scalar,
        generator: &mut crate::rng::SecretRandomGenerator,
        m: usize,
    )
        requires
            m == self.rows@.len(),
            m >= 1,
            old(encrypted).mask@.len() >= 1,
            self.wf(old(encrypted).mask@.len()),
            is_zero_poly(old(encrypted).mask@),
            old(encrypted).body == 0,
        ensures
            final(encrypted).wf(old(encrypted).mask@.len()),
            exists|sel: Seq<Scalar>|
                {
                    &&& sel.len() == m
                    &&& is_binary_poly(sel)
                    &&& final(encrypted).mask@ == lwe_pk_partial_mask(
                        self.rows@,
                        sel,
                        m as int,
                        old(encrypted).mask@.len(),
                    )
                    &&& final(encrypted).body == wadd(
                        lwe_pk_partial_body(self.rows@, sel, m as int),
                        pt,
                    )
                },
    {
        let ghost n = encrypted.mask@.len();
        proof {
            assert(encrypted.mask@ =~= zero_seq(n));
        }
        if m == 1 {
            proof {
                assert((#[trigger] self.rows@[0]).wf(n));
            }
            let add_mask = self.rows[0].mask.clone();
            proof {
                assert(add_mask@ =~= self.rows@[0].mask@);
            }
            update_with_wrapping_add(&mut encrypted.mask, &add_mask);
            encrypted.body = self.rows[0].body.wrapping_add(pt);
            proof {
                let sel = seq![1 as Scalar];
                assert(sel.len() == m);
                assert(is_binary_poly(sel)) by {
                    assert(sel[0] == 1);
                }
                assert(lwe_pk_partial_mask(self.rows@, sel, 0, n) =~= zero_seq(n));
                assert(encrypted.mask@ =~= seq_wadd(zero_seq(n), self.rows@[0].mask@));
                assert(encrypted.mask@ == lwe_pk_partial_mask(self.rows@, sel, 1, n));
                assert(lwe_pk_partial_body(self.rows@, sel, 0) == 0);
                assert(lwe_pk_partial_body(self.rows@, sel, 1) == wadd(0, self.rows@[0].body));
                vstd::arithmetic::div_mod::lemma_small_mod(
                    self.rows@[0].body as nat,
                    spec_q() as nat,
                );
                assert(encrypted.body == wadd(lwe_pk_partial_body(self.rows@, sel, 1), pt));
            }
            return ;
        }
        let sel = generator.gen_binary_vec(m);
        let mut i: usize = 0;
        while i < m
            invariant
                m == self.rows@.len(),
                sel@.len() == m,
                is_binary_poly(sel@),
                self.wf(n),
                n == old(encrypted).mask@.len(),
                n >= 1,
                i <= m,
                encrypted.wf(n),
                encrypted.mask@ == lwe_pk_partial_mask(self.rows@, sel@, i as int, n),
                encrypted.body == lwe_pk_partial_body(self.rows@, sel@, i as int),
            decreases m - i,
        {
            if sel[i] == 1 {
                proof {
                    assert((#[trigger] self.rows@[i as int]).wf(n));
                }
                let add_mask = self.rows[i].mask.clone();
                proof {
                    assert(add_mask@ =~= self.rows@[i as int].mask@);
                }
                update_with_wrapping_add(&mut encrypted.mask, &add_mask);
                encrypted.body = encrypted.body.wrapping_add(self.rows[i].body);
            }
            i = i + 1;
        }
        encrypted.body = encrypted.body.wrapping_add(pt);
    }
}

impl LWESecretKey {
    /// Fill each row's mask of a public key with fresh uniform vectors;
    /// bodies are left alone.
    pub fn generate_mask(&self, encrypted: &mut LWEPublicKey, ctx: &mut Context)
        requires
            old(encrypted).rows@.len() == old(ctx).m,
            old(ctx).wf(),
            old(encrypted).wf(self.key@.len()),
        ensures
            final(encrypted).rows@.len() == old(ctx).m,
            final(encrypted).wf(self.key@.len()),
            forall|i: int|
                0 <= i < old(ctx).m ==> (#[trigger] final(encrypted).rows@[i]).body == old(
                    encrypted,
                ).rows@[i].body,
            ctx_params_unchanged(old(ctx), final(ctx)),
    {
        let m = ctx.m;
        let n = self.key.len();
        let mut i: usize = 0;
        while i < m
            invariant
                m == ctx.m,
                n == self.key@.len(),
                ctx_params_unchanged(old(ctx), ctx),
                encrypted.rows@.len() == m,
                encrypted.wf(n as nat),
                i <= m,
                forall|j: int|
                    0 <= j < m ==> (#[trigger] encrypted.rows@[j]).body == old(
                        encrypted,
                    ).rows@[j].body,
            decreases m - i,
        {
            let mask = ctx.encryption_generator.gen_uniform_vec(n);
            let row = &mut encrypted.rows[i];
            row.mask = mask;
            i = i + 1;
        }
    }

    /// Fill the bodies of a public key whose masks are already set: each row
    /// becomes an encryption of zero under this key, over its present mask.
    pub fn fill_lwe_pk(
        &self,
        encrypted: &mut LWEPublicKey,
        noise_bits: u64,
        generator: &mut crate::rng::EncryptionRandomGenerator,
        m: usize,
    )
        requires
            old(encrypted).rows@.len() == m,
            old(encrypted).wf(self.key@.len()),
            noise_bits <= 60,
        ensures
            final(encrypted).rows@.len() == m,
            final(encrypted).wf(self.key@.len()),
            forall|i: int|
                0 <= i < m ==> (#[trigger] final(encrypted).rows@[i]).mask@ == old(
                    encrypted,
                ).rows@[i].mask@,
            lwe_pk_rows_encrypt_zero(
                final(encrypted).rows@,
                self.key@,
                (1u64 << noise_bits) as int,
            ),
    {
        let ghost n = self.key@.len();
        let mut i: usize = 0;
        while i < m
            invariant
                encrypted.rows@.len() == m,
                encrypted.wf(n),
                n == self.key@.len(),
                noise_bits <= 60,
                i <= m,
                forall|j: int|
                    0 <= j < m ==> (#[trigger] encrypted.rows@[j]).mask@ == old(
                        encrypted,
                    ).rows@[j].mask@,
                forall|j: int|
                    0 <= j < i ==> sabs(
                        lwe_phase(
                            (#[trigger] encrypted.rows@[j]).mask@,
                            encrypted.rows@[j].body,
                            self.key@,
                        ),
                    ) <= (1u64 << noise_bits) as int,
            decreases m - i,
        {
            proof {
                assert((#[trigger] encrypted.rows@[i as int]).wf(n));
            }
            let dot = lwe_dot_exec(&encrypted.rows[i].mask, &self.key);
            let e = generator.gen_noise(noise_bits);
            let body = dot.wrapping_add(e);
            proof {
                crate::lemma_wsub_cancel(dot, e);
            }
            let row = &mut encrypted.rows[i];
            row.body = body;
            i = i + 1;
        }
    }
}

/// Adding the zero sequence changes nothing.
proof fn lemma_seq_wadd_zero(a: Seq<Scalar>)
    ensures
        seq_wadd(a, zero_seq(a.len())) == a,
{
    assert forall|i: int| 0 <= i < a.len() implies seq_wadd(a, zero_seq(a.len()))[i] == a[i] by {
        vstd::arithmetic::div_mod::lemma_small_mod(a[i] as nat, spec_q() as nat);
    }
    assert(seq_wadd(a, zero_seq(a.len())) =~= a);
}

/// Adding a sequence and subtracting another reassociates.
proof fn lemma_seq_add_sub_exchange(a: Seq<Scalar>, b: Seq<Scalar>, c: Seq<Scalar>)
    requires
        a.len() == b.len(),
        a.len() == c.len(),
    ensures
        seq_wsub(seq_wadd(a, b), c) == seq_wadd(a, seq_wsub(b, c)),
{
    assert forall|i: int| 0 <= i < a.len() implies seq_wsub(seq_wadd(a, b), c)[i] == seq_wadd(
        a,
        seq_wsub(b, c),
    )[i] by {
        crate::lemma_wadd_comm(a[i], b[i]);
        crate::lemma_wadd_then_wsub(b[i], a[i], c[i]);
        crate::lemma_wadd_comm(wsub(b[i], c[i]), a[i]);
    }
    assert(seq_wsub(seq_wadd(a, b), c) =~= seq_wadd(a, seq_wsub(b, c)));
}

/// Associativity of componentwise wrapping addition.
proof fn lemma_seq_wadd_assoc2(a: Seq<Scalar>, b: Seq<Scalar>, c: Seq<Scalar>)
    requires
        a.len() == b.len(),
        a.len() == c.len(),
    ensures
        seq_wadd(seq_wadd(a, b), c) == seq_wadd(a, seq_wadd(b, c)),
{
    assert forall|i: int| 0 <= i < a.len() implies seq_wadd(seq_wadd(a, b), c)[i] == seq_wadd(
        a,
        seq_wadd(b, c),
    )[i] by {
        crate::lemma_wadd_assoc(a[i], b[i], c[i]);
    }
    assert(seq_wadd(seq_wadd(a, b), c) =~= seq_wadd(a, seq_wadd(b, c)));
}

/// An LWE-to-LWE key-switching key: for each input-key coefficient, one LWE
/// encryption of that coefficient times `q/B^j` per level `j`.
pub struct LWEKeyswitchKey {
    pub rows: Vec<Vec<LWECiphertext>>,
    pub base_log: usize,
    pub level_count: usize,
}

/// Sum over the first `j` levels of one input coefficient's key-switch rows,
/// each scaled by the matching signed digit: the masks.
pub open spec fn ks_level_mask(
    krow: Seq<LWECiphertext>,
    digits: Seq<Scalar>,
    j: int,
    levels: int,
    n: nat,
) -> Seq<Scalar>
    decreases j,
{
    if j <= 0 {
        zero_seq(n)
    } else {
        seq_wadd(
            ks_level_mask(krow, digits, j - 1, levels, n),
            seq_wscale(krow[j - 1].mask@, digits[levels - j]),
        )
    }
}

/// The matching sum of the scaled bodies.
pub open spec fn ks_level_body(
    krow: Seq<LWECiphertext>,
    digits: Seq<Scalar>,
    j: int,
    levels: int,
) -> Scalar
    decreases j,
{
    if j <= 0 {
        0 as Scalar
    } else {
        wadd(
            ks_level_body(krow, digits, j - 1, levels),
            wmul(krow[j - 1].body, digits[levels - j]),
        )
    }
}

/// The key-switch sum over the first `i` input coefficients: the masks.
pub open spec fn ks_total_mask(
    rows: Seq<Vec<LWECiphertext>>,
    a: Seq<Scalar>,
    base_log: int,
    levels: int,
    i: int,
    n: nat,
) -> Seq<Scalar>
    decreases i,
{
    if i <= 0 {
        zero_seq(n)
    } else {
        seq_wadd(
            ks_total_mask(rows, a, base_log, levels, i - 1, n),
            ks_level_mask(rows[i - 1]@, spec_decompose(a[i - 1], base_log, levels), levels, levels, n),
        )
    }
}

/// The key-switch sum over the first `i` input coefficients: the bodies.
pub open spec fn ks_total_body(
    rows: Seq<Vec<LWECiphertext>>,
    a: Seq<Scalar>,
    base_log: int,
    levels: int,
    i: int,
) -> Scalar
    decreases i,
{
    if i <= 0 {
        0 as Scalar
    } else {
        wadd(
            ks_total_body(rows, a, base_log, levels, i - 1),
            ks_level_body(rows[i - 1]@, spec_decompose(a[i - 1], base_log, levels), levels, levels),
        )
    }
}

/// Level sums keep the mask dimension.
proof fn lemma_ks_level_len(
    krow: Seq<LWECiphertext>,
    digits: Seq<Scalar>,
    j: int,
    levels: int,
    n: nat,
)
    requires
        0 <= j <= levels,
    ensures
        ks_level_mask(krow, digits, j, levels, n).len() == n,
    decreases j,
{
    if j > 0 {
        lemma_ks_level_len(krow, digits, j - 1, levels, n);
    }
}

/// Total sums keep the mask dimension.
proof fn lemma_ks_total_len(
    rows: Seq<Vec<LWECiphertext>>,
    a: Seq<Scalar>,
    base_log: int,
    levels: int,
    i: int,
    n: nat,
)
    requires
        0 <= i,
        0 <= levels,
    ensures
        ks_total_mask(rows, a, base_log, levels, i, n).len() == n,
    decreases i,
{
    if i > 0 {
        lemma_ks_total_len(rows, a, base_log, levels, i - 1, n);
        lemma_ks_level_len(
            rows[i - 1]@,
            spec_decompose(a[i - 1], base_log, levels),
            levels,
            levels,
            n,
        );
    }
}

impl LWEKeyswitchKey {
    /// Shape: `input` rows of `level_count` ciphertexts at output dimension
    /// `n`.
    pub open spec fn wf(&self, input: nat, n: nat) -> bool {
        &&& 1 <= self.base_log <= 32
        &&& 1 <= self.level_count
        &&& self.base_log * self.level_count <= 64
        &&& self.rows@.len() == input
        &&& forall|i: int|
            0 <= i < self.rows@.len() ==> (#[trigger] self.rows@[i])@.len() == self.level_count
        &&& forall|i: int, j: int|
            0 <= i < self.rows@.len() && 0 <= j < self.level_count ==> (#[trigger] self.rows@[i]@[j]).wf(
                n,
            )
    }

    /// An all-zero key-switching key from `input_size` to `output_size`.
    pub fn allocate(input_size: usize, output_size: usize, ctx: &Context) -> (r: LWEKeyswitchKey)
        requires
            ctx.wf(),
        ensures
            r.wf(input_size as nat, output_size as nat),
            r.base_log == ctx.ks_base_log,
            r.level_count == ctx.ks_level_count,
    {
        proof {
            assert(ctx.ks_level_count <= 64) by (nonlinear_arith)
                requires
                    1 <= ctx.ks_base_log,
                    ctx.ks_base_log * ctx.ks_level_count <= 64,
            ;
        }
        let levels = ctx.ks_level_count;
        let mut rows: Vec<Vec<LWECiphertext>> = Vec::new();
        let mut i: usize = 0;
        while i < input_size
            invariant
                i <= input_size,
                rows@.len() == i,
                forall|t: int| 0 <= t < i ==> (#[trigger] rows@[t])@.len() == levels,
                forall|t: int, j: int|
                    0 <= t < i && 0 <= j < levels ==> (#[trigger] rows@[t]@[j]).wf(
                        output_size as nat,
                    ),
            decreases input_size - i,
        {
            let mut level_row: Vec<LWECiphertext> = Vec::new();
            let mut j: usize = 0;
            while j < levels
                invariant
                    j <= levels,
                    level_row@.len() == j,
                    forall|t: int| 0 <= t < j ==> (#[trigger] level_row@[t]).wf(output_size as nat),
                decreases levels - j,
            {
                level_row.push(LWECiphertext { mask: poly_zero(output_size), body: 0 });
                j = j + 1;
            }
            rows.push(level_row);
            i = i + 1;
        }
        LWEKeyswitchKey { rows, base_log: ctx.ks_base_log, level_count: ctx.ks_level_count }
    }

    /// Fill the key: row `(i, j)` encrypts `s_in[i] * q/B^(j+1)` under the
    /// output key, with noise within the context's key noise width.
    pub fn fill_with_keyswitching_key(
        &mut self,
        input_key: &LWESecretKey,
        output_key: &LWESecretKey,
        ctx: &mut Context,
    )
        requires
            old(ctx).wf(),
            old(self).base_log == old(ctx).ks_base_log,
            old(self).level_count == old(ctx).ks_level_count,
        ensures
            final(self).wf(input_key.key@.len(), output_key.key@.len()),
            final(self).base_log == old(ctx).ks_base_log,
            final(self).level_count == old(ctx).ks_level_count,
            forall|i: int, j: int|
                0 <= i < input_key.key@.len() && 0 <= j < old(ctx).ks_level_count ==> sabs(
                    wsub(
                        lwe_phase(
                            (#[trigger] final(self).rows@[i]@[j]).mask@,
                            final(self).rows@[i]@[j].body,
                            output_key.key@,
                        ),
                        wmul(
                            input_key.key@[i],
                            crate::gadget_delta(old(ctx).ks_base_log as int, j + 1),
                        ),
                    ),
                ) <= (1u64 << old(ctx).std_rlwe) as int,
            ctx_params_unchanged(old(ctx), final(ctx)),
    {
        let input_size = input_key.key.len();
        let levels = ctx.ks_level_count;
        let base_log = ctx.ks_base_log;
        let noise_bits = ctx.std_rlwe;
        let ghost bound = (1u64 << noise_bits) as int;
        proof {
            assert(levels <= 64) by (nonlinear_arith)
                requires
                    1 <= base_log,
                    base_log * levels <= 64,
            ;
        }
        let mut rows: Vec<Vec<LWECiphertext>> = Vec::new();
        let mut i: usize = 0;
        while i < input_size
            invariant
                input_size == input_key.key@.len(),
                levels == old(ctx).ks_level_count,
                base_log == old(ctx).ks_base_log,
                1 <= base_log <= 32,
                1 <= levels <= 64,
                base_log * levels <= 64,
                noise_bits == old(ctx).std_rlwe,
                noise_bits <= 50,
                bound == (1u64 << noise_bits) as int,
                ctx.wf(),
                ctx_params_unchanged(old(ctx), ctx),
                i <= input_size,
                rows@.len() == i,
                forall|t: int| 0 <= t < i ==> (#[trigger] rows@[t])@.len() == levels,
                forall|t: int, j: int|
                    0 <= t < i && 0 <= j < levels ==> (#[trigger] rows@[t]@[j]).wf(
                        output_key.key@.len(),
                    ),
                forall|t: int, j: int|
                    0 <= t < i && 0 <= j < levels ==> sabs(
                        wsub(
                            lwe_phase(
                                (#[trigger] rows@[t]@[j]).mask@,
                                rows@[t]@[j].body,
                                output_key.key@,
                            ),
                            wmul(input_key.key@[t], crate::gadget_delta(base_log as int, j + 1)),
                        ),
                    ) <= bound,
            decreases input_size - i,
        {
            let mut level_row: Vec<LWECiphertext> = Vec::new();
            let mut j: usize = 0;
            while j < levels
                invariant
                    input_size == input_key.key@.len(),
                    i < input_size,
                    1 <= base_log <= 32,
                    1 <= levels <= 64,
                    base_log * levels <= 64,
                    noise_bits <= 50,
                    bound == (1u64 << noise_bits) as int,
                    ctx.wf(),
                    ctx_params_unchanged(old(ctx), ctx),
                    j <= levels,
                    level_row@.len() == j,
                    forall|t: int|
                        0 <= t < j ==> (#[trigger] level_row@[t]).wf(output_key.key@.len()),
                    forall|t: int|
                        0 <= t < j ==> sabs(
                            wsub(
                                lwe_phase(
                                    (#[trigger] level_row@[t]).mask@,
                                    level_row@[t].body,
                                    output_key.key@,
                                ),
                                wmul(
                                    input_key.key@[i as int],
                                    crate::gadget_delta(base_log as int, t + 1),
                                ),
                            ),
                        ) <= bound,
                decreases levels - j,
            {
                proof {
                    assert(base_log * (j + 1) <= base_log * levels) by (nonlinear_arith)
                        requires
                            0 <= base_log,
                            j + 1 <= levels,
                    ;
                    assert(base_log * (j + 1) >= 1) by (nonlinear_arith)
                        requires
                            base_log >= 1,
                            j >= 0,
                    ;
                }
                let shift: u64 = 64 - (base_log as u64) * ((j as u64) + 1);
                proof {
                    vstd::arithmetic::power2::lemma2_to64();
                    vstd::arithmetic::power2::lemma2_to64_rest();
                    vstd::arithmetic::power2::lemma_pow2_strictly_increases(shift as nat, 64);
                    vstd::bits::lemma_u64_shl_is_mul(1u64, shift);
                }
                let delta: Scalar = 1u64 << shift;
                let pt = input_key.key[i].wrapping_mul(delta);
                let mut ct = LWECiphertext { mask: poly_zero(output_key.key.len()), body: 0 };
                output_key.encrypt_lwe(&mut ct, pt, noise_bits, &mut ctx.encryption_generator);
                level_row.push(ct);
                j = j + 1;
            }
            rows.push(level_row);
            i = i + 1;
        }
        self.rows = rows;
        self.base_log = base_log;
        self.level_count = levels;
    }

    /// Switch `before` to the output key: keep the body, decompose each mask
    /// coefficient into signed digits, and subtract the digit-scaled key
    /// rows.
    pub fn keyswitch_ciphertext(&self, after: &mut LWECiphertext, before: &LWECiphertext)
        requires
            self.wf(before.mask@.len(), old(after).mask@.len()),
        ensures
            final(after).mask@ == seq_wsub(
                zero_seq(old(after).mask@.len()),
                ks_total_mask(
                    self.rows@,
                    before.mask@,
                    self.base_log as int,
                    self.level_count as int,
                    before.mask@.len() as int,
                    old(after).mask@.len(),
                ),
            ),
            final(after).body == wsub(
                before.body,
                ks_total_body(
                    self.rows@,
                    before.mask@,
                    self.base_log as int,
                    self.level_count as int,
                    before.mask@.len() as int,
                ),
            ),
    {
        let ghost n = after.mask@.len();
        let out_dim = after.mask.len();
        let in_dim = before.mask.len();
        let levels = self.level_count;
        let base_log = self.base_log;
        let mut sum_mask = poly_zero(out_dim);
        let mut sum_body: Scalar = 0;
        proof {
            assert(sum_mask@ =~= zero_seq(n));
        }
        let mut i: usize = 0;
        while i < in_dim
            invariant
                n == old(after).mask@.len(),
                out_dim == n,
                in_dim == before.mask@.len(),
                levels == self.level_count,
                base_log == self.base_log,
                self.wf(in_dim as nat, n),
                i <= in_dim,
                sum_mask@ == ks_total_mask(
                    self.rows@,
                    before.mask@,
                    base_log as int,
                    levels as int,
                    i as int,
                    n,
                ),
                sum_body == ks_total_body(
                    self.rows@,
                    before.mask@,
                    base_log as int,
                    levels as int,
                    i as int,
                ),
            decreases in_dim - i,
        {
            let digits = decompose(before.mask[i], base_log, levels);
            let ghost dg = digits@;
            let mut j: usize = 0;
            let ghost total_mask_i = sum_mask@;
            let ghost total_body_i = sum_body;
            proof {
                lemma_ks_total_len(
                    self.rows@,
                    before.mask@,
                    base_log as int,
                    levels as int,
                    i as int,
                    n,
                );
                lemma_seq_wadd_zero(total_mask_i);
                vstd::arithmetic::div_mod::lemma_small_mod(total_body_i as nat, spec_q() as nat);
                assert(sum_mask@ == seq_wadd(total_mask_i, ks_level_mask(self.rows@[i as int]@, dg, 0, levels as int, n)));
            }
            while j < levels
                invariant
                    n == old(after).mask@.len(),
                    in_dim == before.mask@.len(),
                    levels == self.level_count,
                    base_log == self.base_log,
                    self.wf(in_dim as nat, n),
                    i < in_dim,
                    dg == spec_decompose(before.mask@[i as int], base_log as int, levels as int),
                    digits@ == dg,
                    dg.len() == levels,
                    1 <= levels,
                    j <= levels,
                    total_mask_i.len() == n,
                    sum_mask@ == seq_wadd(
                        total_mask_i,
                        ks_level_mask(self.rows@[i as int]@, dg, j as int, levels as int, n),
                    ),
                    sum_body == wadd(
                        total_body_i,
                        ks_level_body(self.rows@[i as int]@, dg, j as int, levels as int),
                    ),
                decreases levels - j,
            {
                proof {
                    assert((#[trigger] self.rows@[i as int]@[j as int]).wf(n));
                    lemma_ks_level_len(self.rows@[i as int]@, dg, j as int, levels as int, n);
                }
                let d = digits[levels - 1 - j];
                proof {
                    assert(dg[levels as int - 1 - j as int] == dg[(levels - (j + 1)) as int]);
                }
                let krow = &self.rows[i][j];
                let mut scaled = krow.mask.clone();
                proof {
                    assert(scaled@ =~= self.rows@[i as int]@[j as int].mask@);
                }
                mul_const(&mut scaled, d);
                update_with_wrapping_add(&mut sum_mask, &scaled);
                proof {
                    assert(ks_level_mask(self.rows@[i as int]@, dg, j + 1, levels as int, n)
                        == seq_wadd(
                        ks_level_mask(self.rows@[i as int]@, dg, j as int, levels as int, n),
                        seq_wscale(self.rows@[i as int]@[j as int].mask@, dg[levels - (j + 1)]),
                    ));
                    lemma_seq_wadd_assoc2(
                        total_mask_i,
                        ks_level_mask(self.rows@[i as int]@, dg, j as int, levels as int, n),
                        scaled@,
                    );
                }
                let t = krow.body.wrapping_mul(d);
                sum_body = sum_body.wrapping_add(t);
                proof {
                    crate::lemma_wadd_assoc(
                        total_body_i,
                        ks_level_body(self.rows@[i as int]@, dg, j as int, levels as int),
                        t,
                    );
                }
                j = j + 1;
            }
            i = i + 1;
        }
        let mut msk = poly_zero(out_dim);
        proof {
            assert(msk@ =~= zero_seq(n));
            lemma_ks_total_len(
                self.rows@,
                before.mask@,
                base_log as int,
                levels as int,
                in_dim as int,
                n,
            );
        }
        update_with_wrapping_sub(&mut msk, &sum_mask);
        after.mask = msk;
        after.body = before.body.wrapping_sub(sum_body);
    }
}

/// An LWE-to-RLWE key-switching key: one RGSW encryption of each input-key
/// coefficient, of which the conversion uses the body rows.
pub struct LWEtoRLWEKeyswitchKey {
    pub inner: Vec<RGSWCiphertext>,
}

impl LWEtoRLWEKeyswitchKey {
    /// Shape: one RGSW ciphertext per input coefficient, at degree `n`.
    pub open spec fn wf(&self, input: nat, n: nat) -> bool {
        &&& self.inner@.len() == input
        &&& forall|i: int| 0 <= i < self.inner@.len() ==> (#[trigger] self.inner@[i]).wf(n)
    }

    /// All-zero key material at the context shapes.
    pub fn allocate(ctx: &Context) -> (r: LWEtoRLWEKeyswitchKey)
        requires
            ctx.wf(),
        ensures
            r.wf(ctx.poly_size as nat, ctx.poly_size as nat),
            forall|i: int|
                0 <= i < r.inner@.len() ==> (#[trigger] r.inner@[i]).base_log == ctx.rgsw_base_log
                    && r.inner@[i].level_count == ctx.rgsw_level_count,
    {
        let count = ctx.poly_size;
        let mut inner: Vec<RGSWCiphertext> = Vec::new();
        let mut i: usize = 0;
        while i < count
            invariant
                ctx.wf(),
                i <= count,
                inner@.len() == i,
                forall|j: int| 0 <= j < i ==> (#[trigger] inner@[j]).wf(ctx.poly_size as nat),
                forall|j: int|
                    0 <= j < i ==> (#[trigger] inner@[j]).base_log == ctx.rgsw_base_log
                        && inner@[j].level_count == ctx.rgsw_level_count,
            decreases count - i,
        {
            inner.push(
                RGSWCiphertext::allocate(ctx.poly_size, ctx.rgsw_base_log, ctx.rgsw_level_count),
            );
            i = i + 1;
        }
        LWEtoRLWEKeyswitchKey { inner }
    }

    /// Fill the key: entry `i` is an RGSW encryption of the constant `s[i]`
    /// under the key reinterpreted over the ring, at the key-switch gadget.
    pub fn fill_with_keyswitching_key(&mut self, sk: &LWESecretKey, ctx: &mut Context)
        requires
            old(ctx).wf(),
            old(ctx).poly_size == sk.key@.len(),
        ensures
            final(self).wf(sk.key@.len(), sk.key@.len()),
            forall|i: int|
                0 <= i < sk.key@.len() ==> (#[trigger] final(self).inner@[i]).base_log == old(
                    ctx,
                ).ks_base_log && final(self).inner@[i].level_count == old(ctx).ks_level_count
                    && rgsw_encrypts(
                    final(self).inner@[i].rows@,
                    sk.key@,
                    const_poly(sk.key@[i], sk.key@.len()),
                    old(ctx).ks_base_log as int,
                    (1u64 << old(ctx).std_rlwe) as int,
                ),
            ctx_params_unchanged(old(ctx), final(ctx)),
    {
        let rlwe_sk = sk.to_rlwe_sk();
        let count = sk.key.len();
        let mut inner: Vec<RGSWCiphertext> = Vec::new();
        let mut i: usize = 0;
        while i < count
            invariant
                count == sk.key@.len(),
                rlwe_sk.poly@ == sk.key@,
                ctx.wf(),
                ctx_params_unchanged(old(ctx), ctx),
                ctx.poly_size == sk.key@.len(),
                i <= count,
                inner@.len() == i,
                forall|j: int| 0 <= j < i ==> (#[trigger] inner@[j]).wf(sk.key@.len()),
                forall|j: int|
                    0 <= j < i ==> (#[trigger] inner@[j]).base_log == old(ctx).ks_base_log
                        && inner@[j].level_count == old(ctx).ks_level_count && rgsw_encrypts(
                        inner@[j].rows@,
                        sk.key@,
                        const_poly(sk.key@[j], sk.key@.len()),
                        old(ctx).ks_base_log as int,
                        (1u64 << old(ctx).std_rlwe) as int,
                    ),
            decreases count - i,
        {
            let mut rgsw_ct = RGSWCiphertext::allocate(
                ctx.poly_size,
                ctx.ks_base_log,
                ctx.ks_level_count,
            );
            rlwe_sk.encrypt_constant_rgsw(&mut rgsw_ct, sk.key[i], ctx);
            inner.push(rgsw_ct);
            i = i + 1;
        }
        self.inner = inner;
    }
}

/// Sum over the first `j` levels of the digit-scaled odd (body) rows of one
/// key entry: the masks.
pub open spec fn conv_level_mask(
    ct: RGSWCiphertext,
    digits: Seq<Scalar>,
    j: int,
    levels: int,
    n: nat,
) -> Seq<Scalar>
    decreases j,
{
    if j <= 0 {
        zero_seq(n)
    } else {
        seq_wadd(
            conv_level_mask(ct, digits, j - 1, levels, n),
            seq_wscale(ct.rows@[2 * (j - 1) + 1].mask@, digits[levels - j]),
        )
    }
}

/// The matching sum over the rows' bodies.
pub open spec fn conv_level_body(
    ct: RGSWCiphertext,
    digits: Seq<Scalar>,
    j: int,
    levels: int,
    n: nat,
) -> Seq<Scalar>
    decreases j,
{
    if j <= 0 {
        zero_seq(n)
    } else {
        seq_wadd(
            conv_level_body(ct, digits, j - 1, levels, n),
            seq_wscale(ct.rows@[2 * (j - 1) + 1].body@, digits[levels - j]),
        )
    }
}

/// The conversion sum over the first `i` input coefficients: the masks.
pub open spec fn conv_total_mask(
    inner: Seq<RGSWCiphertext>,
    a: Seq<Scalar>,
    base_log: int,
    levels: int,
    i: int,
    n: nat,
) -> Seq<Scalar>
    decreases i,
{
    if i <= 0 {
        zero_seq(n)
    } else {
        seq_wadd(
            conv_total_mask(inner, a, base_log, levels, i - 1, n),
            conv_level_mask(
                inner[i - 1],
                spec_decompose(a[i - 1], base_log, levels),
                levels,
                levels,
                n,
            ),
        )
    }
}

/// The conversion sum over the first `i` input coefficients: the bodies.
pub open spec fn conv_total_body(
    inner: Seq<RGSWCiphertext>,
    a: Seq<Scalar>,
    base_log: int,
    levels: int,
    i: int,
    n: nat,
) -> Seq<Scalar>
    decreases i,
{
    if i <= 0 {
        zero_seq(n)
    } else {
        seq_wadd(
            conv_total_body(inner, a, base_log, levels, i - 1, n),
            conv_level_body(
                inner[i - 1],
                spec_decompose(a[i - 1], base_log, levels),
                levels,
                levels,
                n,
            ),
        )
    }
}

/// Level and total conversion sums keep the degree.
proof fn lemma_conv_level_len(ct: RGSWCiphertext, digits: Seq<Scalar>, j: int, levels: int, n: nat)
    requires
        0 <= j <= levels,
    ensures
        conv_level_mask(ct, digits, j, levels, n).len() == n,
        conv_level_body(ct, digits, j, levels, n).len() == n,
    decreases j,
{
    if j > 0 {
        lemma_conv_level_len(ct, digits, j - 1, levels, n);
    }
}

/// Total conversion sums keep the degree.
proof fn lemma_conv_total_len(
    inner: Seq<RGSWCiphertext>,
    a: Seq<Scalar>,
    base_log: int,
    levels: int,
    i: int,
    n: nat,
)
    requires
        0 <= i,
        0 <= levels,
    ensures
        conv_total_mask(inner, a, base_log, levels, i, n).len() == n,
        conv_total_body(inner, a, base_log, levels, i, n).len() == n,
    decreases i,
{
    if i > 0 {
        lemma_conv_total_len(inner, a, base_log, levels, i - 1, n);
        lemma_conv_level_len(
            inner[i - 1],
            spec_decompose(a[i - 1], base_log, levels),
            levels,
            levels,
            n,
        );
    }
}

/// Convert an LWE ciphertext at ring dimension into an RLWE ciphertext:
/// decompose each mask coefficient and subtract the digit-scaled body rows
/// of the matching key entry; the LWE body lands on the constant term.
pub fn conv_lwe_to_rlwe(
    ksks: &LWEtoRLWEKeyswitchKey,
    lwe: &LWECiphertext,
    ctx: &Context,
) -> (r: RLWECiphertext)
    requires
        ctx.wf(),
        lwe.mask@.len() == ctx.poly_size,
        ksks.wf(ctx.poly_size as nat, ctx.poly_size as nat),
        forall|i: int|
            0 <= i < ksks.inner@.len() ==> (#[trigger] ksks.inner@[i]).base_log == ctx.ks_base_log
                && ksks.inner@[i].level_count == ctx.ks_level_count,
    ensures
        r.wf(ctx.poly_size as nat),
        r.mask@ == seq_wsub(
            zero_seq(ctx.poly_size as nat),
            conv_total_mask(
                ksks.inner@,
                lwe.mask@,
                ctx.ks_base_log as int,
                ctx.ks_level_count as int,
                ctx.poly_size as int,
                ctx.poly_size as nat,
            ),
        ),
        r.body@ == seq_wadd(
            seq_wsub(
                zero_seq(ctx.poly_size as nat),
                conv_total_body(
                    ksks.inner@,
                    lwe.mask@,
                    ctx.ks_base_log as int,
                    ctx.ks_level_count as int,
                    ctx.poly_size as int,
                    ctx.poly_size as nat,
                ),
            ),
            const_poly(lwe.body, ctx.poly_size as nat),
        ),
{
    let ghost n = ctx.poly_size as nat;
    let dim = ctx.poly_size;
    let levels = ctx.ks_level_count;
    let base_log = ctx.ks_base_log;
    proof {
        assert(levels <= 64) by (nonlinear_arith)
            requires
                1 <= base_log,
                base_log * levels <= 64,
        ;
    }
    let mut sum_mask = poly_zero(dim);
    let mut sum_body = poly_zero(dim);
    proof {
        assert(sum_mask@ =~= zero_seq(n));
        assert(sum_body@ =~= zero_seq(n));
    }
    let mut i: usize = 0;
    while i < dim
        invariant
            n == ctx.poly_size as nat,
            dim == ctx.poly_size,
            levels == ctx.ks_level_count,
            base_log == ctx.ks_base_log,
            1 <= base_log <= 32,
            1 <= levels <= 64,
            base_log * levels <= 64,
            lwe.mask@.len() == dim,
            ksks.wf(n, n),
            forall|t: int|
                0 <= t < ksks.inner@.len() ==> (#[trigger] ksks.inner@[t]).base_log == base_log
                    && ksks.inner@[t].level_count == levels,
            i <= dim,
            sum_mask@ == conv_total_mask(
                ksks.inner@,
                lwe.mask@,
                base_log as int,
                levels as int,
                i as int,
                n,
            ),
            sum_body@ == conv_total_body(
                ksks.inner@,
                lwe.mask@,
                base_log as int,
                levels as int,
                i as int,
                n,
            ),
        decreases dim - i,
    {
        let digits = decompose(lwe.mask[i], base_log, levels);
        let ghost dg = digits@;
        let ghost total_mask_i = sum_mask@;
        let ghost total_body_i = sum_body@;
        proof {
            lemma_conv_total_len(
                ksks.inner@,
                lwe.mask@,
                base_log as int,
                levels as int,
                i as int,
                n,
            );
            lemma_seq_wadd_zero(total_mask_i);
            lemma_seq_wadd_zero(total_body_i);
            assert((#[trigger] ksks.inner@[i as int]).wf(n));
        }
        let ksk = &ksks.inner[i];
        let mut j: usize = 0;
        while j < levels
            invariant
                n == ctx.poly_size as nat,
                dim == ctx.poly_size,
                levels == ctx.ks_level_count,
                base_log == ctx.ks_base_log,
                1 <= levels <= 64,
                lwe.mask@.len() == dim,
                i < dim,
                ksks.wf(n, n),
                ksk == &ksks.inner[i as int],
                ksk.wf(n),
                ksk.level_count == levels,
                dg == spec_decompose(lwe.mask@[i as int], base_log as int, levels as int),
                digits@ == dg,
                dg.len() == levels,
                j <= levels,
                total_mask_i.len() == n,
                total_body_i.len() == n,
                sum_mask@ == seq_wadd(
                    total_mask_i,
                    conv_level_mask(ksks.inner@[i as int], dg, j as int, levels as int, n),
                ),
                sum_body@ == seq_wadd(
                    total_body_i,
                    conv_level_body(ksks.inner@[i as int], dg, j as int, levels as int, n),
                ),
            decreases levels - j,
        {
            proof {
                assert((#[trigger] ksk.rows@[2 * j as int + 1]).wf(n));
                lemma_conv_level_len(ksks.inner@[i as int], dg, j as int, levels as int, n);
            }
            let d = digits[levels - 1 - j];
            let row = &ksk.rows[2 * j + 1];
            let mut scaled_mask = row.mask.clone();
            let mut scaled_body = row.body.clone();
            proof {
                assert(scaled_mask@ =~= ksks.inner@[i as int].rows@[2 * j as int + 1].mask@);
                assert(scaled_body@ =~= ksks.inner@[i as int].rows@[2 * j as int + 1].body@);
            }
            mul_const(&mut scaled_mask, d);
            mul_const(&mut scaled_body, d);
            update_with_wrapping_add(&mut sum_mask, &scaled_mask);
            update_with_wrapping_add(&mut sum_body, &scaled_body);
            proof {
                assert(dg[levels as int - 1 - j as int] == dg[(levels - (j + 1)) as int]);
                assert(conv_level_mask(ksks.inner@[i as int], dg, j + 1, levels as int, n)
                    == seq_wadd(
                    conv_level_mask(ksks.inner@[i as int], dg, j as int, levels as int, n),
                    seq_wscale(
                        ksks.inner@[i as int].rows@[2 * j as int + 1].mask@,
                        dg[levels - (j + 1)],
                    ),
                ));
                lemma_seq_wadd_assoc2(
                    total_mask_i,
                    conv_level_mask(ksks.inner@[i as int], dg, j as int, levels as int, n),
                    scaled_mask@,
                );
                lemma_seq_wadd_assoc2(
                    total_body_i,
                    conv_level_body(ksks.inner@[i as int], dg, j as int, levels as int, n),
                    scaled_body@,
                );
            }
            j = j + 1;
        }
        i = i + 1;
    }
    proof {
        lemma_conv_total_len(
            ksks.inner@,
            lwe.mask@,
            base_log as int,
            levels as int,
            dim as int,
            n,
        );
    }
    let mut out_mask = poly_zero(dim);
    let mut out_body = poly_zero(dim);
    proof {
        assert(out_mask@ =~= zero_seq(n));
        assert(out_body@ =~= zero_seq(n));
    }
    update_with_wrapping_sub(&mut out_mask, &sum_mask);
    update_with_wrapping_sub(&mut out_body, &sum_body);
    let mut b_poly = poly_zero(dim);
    b_poly.set(0, lwe.body);
    proof {
        assert(b_poly@ =~= const_poly(lwe.body, n));
    }
    update_with_wrapping_add(&mut out_body, &b_poly);
    RLWECiphertext { mask: out_mask, body: out_body }
}

/// One row half of the monomial-selected combination
/// `sum over parties p of (X^(r*p) - 1) * bsk[p]`, over the first `p`
/// parties.
pub open spec fn combo_row_mask(
    bsk: Seq<RGSWCiphertext>,
    r: int,
    p: int,
    row: int,
    n: nat,
) -> Seq<Scalar>
    decreases p,
{
    if p <= 0 {
        zero_seq(n)
    } else {
        seq_wadd(
            combo_row_mask(bsk, r, p - 1, row, n),
            seq_wsub(mono_mul(bsk[p].rows@[row].mask@, r * p), bsk[p].rows@[row].mask@),
        )
    }
}

/// The matching combination over the rows' bodies.
pub open spec fn combo_row_body(
    bsk: Seq<RGSWCiphertext>,
    r: int,
    p: int,
    row: int,
    n: nat,
) -> Seq<Scalar>
    decreases p,
{
    if p <= 0 {
        zero_seq(n)
    } else {
        seq_wadd(
            combo_row_body(bsk, r, p - 1, row, n),
            seq_wsub(mono_mul(bsk[p].rows@[row].body@, r * p), bsk[p].rows@[row].body@),
        )
    }
}

/// All row masks of the combination, as a list of halves.
pub open spec fn combo_masks(
    bsk: Seq<RGSWCiphertext>,
    r: int,
    k: int,
    rowcount: nat,
    n: nat,
) -> Seq<Seq<Scalar>> {
    Seq::new(rowcount, |row: int| combo_row_mask(bsk, r, k, row, n))
}

/// All row bodies of the combination.
pub open spec fn combo_bodies(
    bsk: Seq<RGSWCiphertext>,
    r: int,
    k: int,
    rowcount: nat,
    n: nat,
) -> Seq<Seq<Scalar>> {
    Seq::new(rowcount, |row: int| combo_row_body(bsk, r, k, row, n))
}

/// One blind-rotation step: add to the accumulator the external product of
/// the monomial-selected combination with the accumulator itself (the mask).
pub open spec fn boot_step_mask(
    bsk: Seq<RGSWCiphertext>,
    r: int,
    k: int,
    base_log: int,
    levels: int,
    am: Seq<Scalar>,
    ab: Seq<Scalar>,
    n: nat,
) -> Seq<Scalar> {
    seq_wadd(
        am,
        ext_partial_mask(
            combo_masks(bsk, r, k, (2 * levels) as nat, n),
            base_log,
            levels,
            am,
            ab,
            levels,
            n,
        ),
    )
}

/// One blind-rotation step: the body.
pub open spec fn boot_step_body(
    bsk: Seq<RGSWCiphertext>,
    r: int,
    k: int,
    base_log: int,
    levels: int,
    am: Seq<Scalar>,
    ab: Seq<Scalar>,
    n: nat,
) -> Seq<Scalar> {
    seq_wadd(
        ab,
        ext_partial_body(
            combo_bodies(bsk, r, k, (2 * levels) as nat, n),
            base_log,
            levels,
            am,
            ab,
            levels,
            n,
        ),
    )
}

/// The accumulator after the first `i` blind-rotation steps: each step
/// switches the `i`-th LWE mask element into a monomial degree and applies
/// [`boot_step_mask`] and [`boot_step_body`].
pub open spec fn boot_fold(
    keys: Seq<Vec<RGSWCiphertext>>,
    lmask: Seq<Scalar>,
    lg: nat,
    k: int,
    base_log: int,
    levels: int,
    am: Seq<Scalar>,
    ab: Seq<Scalar>,
    i: int,
    n: nat,
) -> (Seq<Scalar>, Seq<Scalar>)
    decreases i,
{
    if i <= 0 {
        (am, ab)
    } else {
        let prev = boot_fold(keys, lmask, lg, k, base_log, levels, am, ab, i - 1, n);
        let r = mod_switch(lmask[i - 1], lg);
        (
            boot_step_mask(keys[i - 1]@, r, k, base_log, levels, prev.0, prev.1, n),
            boot_step_body(keys[i - 1]@, r, k, base_log, levels, prev.0, prev.1, n),
        )
    }
}

/// Blind rotation: switch the LWE body into a monomial degree and divide the
/// accumulator by that monomial; then, for each LWE mask element, build the
/// monomial-selected combination of its bootstrapping-key entries and add
/// its external product with the accumulator back into the accumulator. The
/// returned ciphertext is a copy of the final accumulator.
pub fn bootstrap(
    lwe_in: &LWECiphertext,
    accumulator: &mut RLWECiphertext,
    bootstrappingkeys: &Vec<Vec<RGSWCiphertext>>,
    ctx: &mut Context,
) -> (r: RLWECiphertext)
    requires
        old(ctx).wf(),
        old(accumulator).wf(old(ctx).poly_size as nat),
        lwe_in.mask@.len() == bootstrappingkeys@.len(),
        forall|i: int|
            0 <= i < bootstrappingkeys@.len() ==> (#[trigger] bootstrappingkeys@[i])@.len() == old(
                ctx,
            ).k + 1,
        forall|i: int, p: int|
            0 <= i < bootstrappingkeys@.len() && 1 <= p <= old(ctx).k
                ==> (#[trigger] bootstrappingkeys@[i]@[p]).wf(old(ctx).poly_size as nat)
                && bootstrappingkeys@[i]@[p].base_log == old(ctx).rgsw_base_log
                && bootstrappingkeys@[i]@[p].level_count == old(ctx).rgsw_level_count,
    ensures
        final(accumulator).wf(old(ctx).poly_size as nat),
        (final(accumulator).mask@, final(accumulator).body@) == boot_fold(
            bootstrappingkeys@,
            lwe_in.mask@,
            lg2(old(ctx).poly_size as int),
            old(ctx).k as int,
            old(ctx).rgsw_base_log as int,
            old(ctx).rgsw_level_count as int,
            mono_div(old(accumulator).mask@, mod_switch(lwe_in.body, lg2(old(ctx).poly_size as int))),
            mono_div(old(accumulator).body@, mod_switch(lwe_in.body, lg2(old(ctx).poly_size as int))),
            lwe_in.mask@.len() as int,
            old(ctx).poly_size as nat,
        ),
        r.mask@ == final(accumulator).mask@,
        r.body@ == final(accumulator).body@,
        ctx_params_unchanged(old(ctx), final(ctx)),
{
    let ghost n = ctx.poly_size as nat;
    let ghost lg = lg2(ctx.poly_size as int);
    let k = ctx.k;
    let levels = ctx.rgsw_level_count;
    let base_log = ctx.rgsw_base_log;
    let dim = lwe_in.mask.len();

    let rotation = pbs_modulus_switch(lwe_in.body, ctx.poly_size);
    accumulator.update_with_monomial_div(rotation);
    proof {
        assert(levels <= 64) by (nonlinear_arith)
            requires
                1 <= base_log,
                base_log * levels <= 64,
        ;
    }
    let ghost start_mask = accumulator.mask@;
    let ghost start_body = accumulator.body@;

    let mut index: usize = 0;
    while index < dim
        invariant
            n == ctx.poly_size as nat,
            lg == lg2(ctx.poly_size as int),
            k == ctx.k,
            levels == ctx.rgsw_level_count,
            base_log == ctx.rgsw_base_log,
            1 <= levels <= 64,
            ctx.wf(),
            ctx_params_unchanged(old(ctx), ctx),
            dim == lwe_in.mask@.len(),
            dim == bootstrappingkeys@.len(),
            forall|i: int|
                0 <= i < dim ==> (#[trigger] bootstrappingkeys@[i])@.len() == k + 1,
            forall|i: int, p: int|
                0 <= i < dim && 1 <= p <= k ==> (#[trigger] bootstrappingkeys@[i]@[p]).wf(n)
                    && bootstrappingkeys@[i]@[p].base_log == base_log
                    && bootstrappingkeys@[i]@[p].level_count == levels,
            index <= dim,
            accumulator.wf(n),
            (accumulator.mask@, accumulator.body@) == boot_fold(
                bootstrappingkeys@,
                lwe_in.mask@,
                lg,
                k as int,
                base_log as int,
                levels as int,
                start_mask,
                start_body,
                index as int,
                n,
            ),
        decreases dim - index,
    {
        let pbs_switch = pbs_modulus_switch(lwe_in.mask[index], ctx.poly_size);
        let ghost rr = mod_switch(lwe_in.mask@[index as int], lg);
        let bsk = &bootstrappingkeys[index];
        let mut addition = RGSWCiphertext::allocate(ctx.poly_size, base_log, levels);
        proof {
            assert forall|row: int| 0 <= row < 2 * levels implies (#[trigger] addition.rows@[row]).mask@
                =~= combo_row_mask(bsk@, rr as int, 0, row, n) by {}
            assert forall|row: int| 0 <= row < 2 * levels implies (#[trigger] addition.rows@[row]).body@
                =~= combo_row_body(bsk@, rr as int, 0, row, n) by {}
        }
        let mut party: usize = 1;
        while party <= k
            invariant
                n == ctx.poly_size as nat,
                1 <= levels <= 64,
                ctx.poly_size == n,
                ctx.wf(),
                k == ctx.k,
                index < dim,
                dim == bootstrappingkeys@.len(),
                bsk == &bootstrappingkeys[index as int],
                bsk@.len() == k + 1,
                forall|p: int|
                    1 <= p <= k ==> (#[trigger] bsk@[p]).wf(n) && bsk@[p].base_log == base_log
                        && bsk@[p].level_count == levels,
                rr <= 2 * n,
                pbs_switch == rr,
                1 <= party <= k + 1,
                addition.base_log == base_log,
                addition.level_count == levels,
                addition.rows@.len() == 2 * levels,
                forall|row: int|
                    0 <= row < 2 * levels ==> (#[trigger] addition.rows@[row]).mask@
                        == combo_row_mask(bsk@, rr as int, party - 1, row, n)
                        && addition.rows@[row].body@ == combo_row_body(
                        bsk@,
                        rr as int,
                        party - 1,
                        row,
                        n,
                    ),
            decreases k + 1 - party,
        {
            proof {
                assert((#[trigger] bsk@[party as int]).wf(n));
                assert forall|row: int| 0 <= row < 2 * levels implies (#[trigger] addition.rows@[row]).wf(
                    n,
                ) by {
                    lemma_combo_row_len(bsk@, rr as int, party - 1, row, n);
                }
            }
            let mut aux = RGSWCiphertext::allocate(ctx.poly_size, base_log, levels);
            aux.fill_with_copy(&bsk[party]);
            proof {
                assert(pbs_switch * party <= 0x8000_0000) by (nonlinear_arith)
                    requires
                        pbs_switch <= 2 * 0x100_0000,
                        party <= 64,
                ;
            }
            let degree = pbs_switch * party;
            bsk[party].product_monomial(&mut aux, degree);
            addition.add_ciphertext(&aux);
            addition.sub_ciphertext(&bsk[party]);
            proof {
                let p = party as int;
                assert forall|row: int| 0 <= row < 2 * levels implies (#[trigger] addition.rows@[row]).mask@
                    == combo_row_mask(bsk@, rr as int, p, row, n) && addition.rows@[row].body@
                    == combo_row_body(bsk@, rr as int, p, row, n) by {
                    let prevm = combo_row_mask(bsk@, rr as int, p - 1, row, n);
                    let prevb = combo_row_body(bsk@, rr as int, p - 1, row, n);
                    let mm = mono_mul(bsk@[p].rows@[row].mask@, rr * p);
                    let mb = mono_mul(bsk@[p].rows@[row].body@, rr * p);
                    lemma_combo_row_len(bsk@, rr as int, p - 1, row, n);
                    assert(degree as int == rr * p);
                    lemma_seq_add_sub_exchange(prevm, mm, bsk@[p].rows@[row].mask@);
                    lemma_seq_add_sub_exchange(prevb, mb, bsk@[p].rows@[row].body@);
                }
            }
            party = party + 1;
        }
        let mut aux2 = RLWECiphertext::allocate(ctx.poly_size);
        proof {
            assert forall|row: int| 0 <= row < 2 * levels implies (#[trigger] addition.rows@[row]).wf(
                n,
            ) by {
                lemma_combo_row_len(bsk@, rr as int, k as int, row, n);
            }
        }
        addition.external_product(&mut aux2, &accumulator);
        proof {
            assert(crate::rgsw::rgsw_masks(addition.rows@) =~= combo_masks(
                bsk@,
                rr as int,
                k as int,
                (2 * levels) as nat,
                n,
            ));
            assert(crate::rgsw::rgsw_bodies(addition.rows@) =~= combo_bodies(
                bsk@,
                rr as int,
                k as int,
                (2 * levels) as nat,
                n,
            ));
            crate::rgsw::lemma_ext_partial_len(
                combo_masks(bsk@, rr as int, k as int, (2 * levels) as nat, n),
                base_log as int,
                levels as int,
                accumulator.mask@,
                accumulator.body@,
                levels as int,
                n,
            );
        }
        accumulator.update_with_add(&aux2);
        index = index + 1;
    }
    let mut out = RLWECiphertext::allocate(ctx.poly_size);
    out.fill_with_copy(&accumulator);
    out
}

/// Party combinations keep the degree.
proof fn lemma_combo_row_len(bsk: Seq<RGSWCiphertext>, r: int, p: int, row: int, n: nat)
    requires
        0 <= p,
    ensures
        combo_row_mask(bsk, r, p, row, n).len() == n,
        combo_row_body(bsk, r, p, row, n).len() == n,
    decreases p,
{
    if p > 0 {
        lemma_combo_row_len(bsk, r, p - 1, row, n);
    }
}

/// Shape of one RGSW ciphertext given by its halves: one mask and one body
/// polynomial of degree `n` for each of the `2 * levels` rows.
pub open spec fn halves_wf(m: Seq<Seq<Scalar>>, b: Seq<Seq<Scalar>>, levels: int, n: nat) -> bool {
    &&& m.len() == 2 * levels
    &&& b.len() == 2 * levels
    &&& forall|r: int| 0 <= r < m.len() ==> (#[trigger] m[r]).len() == n
    &&& forall|r: int| 0 <= r < b.len() ==> (#[trigger] b[r]).len() == n
}

/// Row-wise wrapping difference of two lists of polynomial halves.
pub open spec fn sub_halves(a: Seq<Seq<Scalar>>, b: Seq<Seq<Scalar>>) -> Seq<Seq<Scalar>> {
    Seq::new(a.len(), |r: int| seq_wsub(a[r], b[r]))
}

/// Row-wise wrapping sum of two lists of polynomial halves.
pub open spec fn add_halves(a: Seq<Seq<Scalar>>, b: Seq<Seq<Scalar>>) -> Seq<Seq<Scalar>> {
    Seq::new(a.len(), |r: int| seq_wadd(a[r], b[r]))
}

/// One half of the internal product of the ciphertext with halves `x`
/// against a target ciphertext with mask rows `tm` and body rows `tb`: each
/// target row goes through the external product against `x`.
pub open spec fn int_prod_halves(
    x: Seq<Seq<Scalar>>,
    tm: Seq<Seq<Scalar>>,
    tb: Seq<Seq<Scalar>>,
    base_log: int,
    levels: int,
    n: nat,
) -> Seq<Seq<Scalar>> {
    Seq::new(tm.len(), |e: int| ext_partial_mask(x, base_log, levels, tm[e], tb[e], levels, n))
}

/// One round of the indicator recurrence over the state vector `prev` of
/// `k + 1` ciphertexts (each a pair of mask rows and body rows): entry 0
/// becomes `(one - c_j) * prev[0]`, entry `i` becomes
/// `c_j * (prev[i-1] - prev[i]) + prev[i]`, products internal.
pub open spec fn indicator_step(
    cm: Seq<Seq<Scalar>>,
    cb: Seq<Seq<Scalar>>,
    onem: Seq<Seq<Scalar>>,
    oneb: Seq<Seq<Scalar>>,
    prev: Seq<(Seq<Seq<Scalar>>, Seq<Seq<Scalar>>)>,
    k: int,
    base_log: int,
    levels: int,
    n: nat,
) -> Seq<(Seq<Seq<Scalar>>, Seq<Seq<Scalar>>)> {
    Seq::new(
        (k + 1) as nat,
        |i: int|
            if i == 0 {
                (
                    int_prod_halves(
                        sub_halves(onem, cm),
                        prev[0].0,
                        prev[0].1,
                        base_log,
                        levels,
                        n,
                    ),
                    int_prod_halves(
                        sub_halves(oneb, cb),
                        prev[0].0,
                        prev[0].1,
                        base_log,
                        levels,
                        n,
                    ),
                )
            } else {
                (
                    add_halves(
                        int_prod_halves(
                            cm,
                            sub_halves(prev[i - 1].0, prev[i].0),
                            sub_halves(prev[i - 1].1, prev[i].1),
                            base_log,
                            levels,
                            n,
                        ),
                        prev[i].0,
                    ),
                    add_halves(
                        int_prod_halves(
                            cb,
                            sub_halves(prev[i - 1].0, prev[i].0),
                            sub_halves(prev[i - 1].1, prev[i].1),
                            base_log,
                            levels,
                            n,
                        ),
                        prev[i].1,
                    ),
                )
            },
    )
}

/// The indicator state after the first `j` rounds, starting from the drawn
/// constants: `draws[0]` (an encryption of 1) seeds entry 0, `draws[1..=k]`
/// (encryptions of 0) seed the rest, and round `t` consumes the input bit
/// ciphertext `c[t-1]` together with the fresh encryption of 1 at
/// `draws[k + t]`.
pub open spec fn indicator_fold(
    c: Seq<RGSWCiphertext>,
    draws: Seq<(Seq<Seq<Scalar>>, Seq<Seq<Scalar>>)>,
    j: int,
    k: int,
    base_log: int,
    levels: int,
    n: nat,
) -> Seq<(Seq<Seq<Scalar>>, Seq<Seq<Scalar>>)>
    decreases j,
{
    if j <= 0 {
        Seq::new((k + 1) as nat, |i: int| draws[i])
    } else {
        indicator_step(
            rgsw_masks(c[j - 1].rows@),
            rgsw_bodies(c[j - 1].rows@),
            draws[k + j].0,
            draws[k + j].1,
            indicator_fold(c, draws, j - 1, k, base_log, levels, n),
            k,
            base_log,
            levels,
            n,
        )
    }
}

/// The fold only reads the draws it has consumed: extending the list of
/// draws beyond index `k + j` does not change the state after `j` rounds.
proof fn lemma_indicator_fold_prefix(
    c: Seq<RGSWCiphertext>,
    d1: Seq<(Seq<Seq<Scalar>>, Seq<Seq<Scalar>>)>,
    d2: Seq<(Seq<Seq<Scalar>>, Seq<Seq<Scalar>>)>,
    j: int,
    k: int,
    base_log: int,
    levels: int,
    n: nat,
)
    requires
        0 <= j,
        0 <= k,
        forall|t: int| 0 <= t <= k + j ==> d1[t] == d2[t],
    ensures
        indicator_fold(c, d1, j, k, base_log, levels, n) == indicator_fold(
            c,
            d2,
            j,
            k,
            base_log,
            levels,
            n,
        ),
    decreases j,
{
    if j <= 0 {
        assert(indicator_fold(c, d1, 0, k, base_log, levels, n) =~= indicator_fold(
            c,
            d2,
            0,
            k,
            base_log,
            levels,
            n,
        ));
    } else {
        lemma_indicator_fold_prefix(c, d1, d2, j - 1, k, base_log, levels, n);
    }
}

/// Everything the homomorphic indicator promises of its output: there are
/// drawn constants — one fresh RGSW encryption of 1 and `k` of 0 to seed the
/// state, and one fresh encryption of 1 per round, each within the noise
/// budget — such that the result is exactly the `k`-round indicator fold of
/// the input bit ciphertexts with those constants.
pub open spec fn indicator_outcome(
    draws: Seq<(Seq<Seq<Scalar>>, Seq<Seq<Scalar>>)>,
    c: Seq<RGSWCiphertext>,
    r: Seq<RGSWCiphertext>,
    k: int,
    s: Seq<Scalar>,
    base_log: int,
    levels: int,
    n: nat,
    bound: int,
) -> bool {
    &&& draws.len() == 2 * k + 1
    &&& forall|d: int|
        0 <= d < draws.len() ==> halves_wf((#[trigger] draws[d]).0, draws[d].1, levels, n)
    &&& rgsw_encrypts_halves(draws[0].0, draws[0].1, s, const_poly(1, n), base_log, bound)
    &&& forall|d: int|
        1 <= d <= k ==> rgsw_encrypts_halves(
            (#[trigger] draws[d]).0,
            draws[d].1,
            s,
            const_poly(0, n),
            base_log,
            bound,
        )
    &&& forall|d: int|
        k + 1 <= d < 2 * k + 1 ==> rgsw_encrypts_halves(
            (#[trigger] draws[d]).0,
            draws[d].1,
            s,
            const_poly(1, n),
            base_log,
            bound,
        )
    &&& r.len() == k + 1
    &&& forall|i: int|
        0 <= i <= k ==> rgsw_masks((#[trigger] r[i]).rows@) == indicator_fold(
            c,
            draws,
            k,
            k,
            base_log,
            levels,
            n,
        )[i].0 && rgsw_bodies(r[i].rows@) == indicator_fold(c, draws, k, k, base_log, levels, n)[i].1
}

/// The homomorphic indicator: from RGSW encryptions of the bits
/// `b_0 .. b_{k-1}`, build a vector of `k + 1` RGSW ciphertexts whose entry
/// at the Hamming weight of the bits encrypts 1, the rest 0. The RGSW(1) and
/// RGSW(0) constants are freshly encrypted, so the contract quantifies over
/// them: whatever was drawn, each drawn constant encrypts its constant
/// within the noise budget and the result is exactly the indicator fold of
/// the inputs with those draws ([`indicator_outcome`]).
pub fn homomorphic_indicator(
    global_rlwe_sk: &RLWESecretKey,
    c: Vec<RGSWCiphertext>,
    ctx: &mut Context,
) -> (r: Vec<RGSWCiphertext>)
    requires
        old(ctx).wf(),
        global_rlwe_sk.poly@.len() == old(ctx).poly_size,
        c@.len() == old(ctx).k,
        forall|j: int|
            0 <= j < c@.len() ==> (#[trigger] c@[j]).wf(old(ctx).poly_size as nat)
                && c@[j].base_log == old(ctx).rgsw_base_log && c@[j].level_count == old(
                ctx,
            ).rgsw_level_count,
    ensures
        r@.len() == old(ctx).k + 1,
        forall|i: int|
            0 <= i < r@.len() ==> (#[trigger] r@[i]).wf(old(ctx).poly_size as nat)
                && r@[i].base_log == old(ctx).rgsw_base_log && r@[i].level_count == old(
                ctx,
            ).rgsw_level_count,
        exists|draws: Seq<(Seq<Seq<Scalar>>, Seq<Seq<Scalar>>)>|
            indicator_outcome(
                draws,
                c@,
                r@,
                old(ctx).k as int,
                global_rlwe_sk.poly@,
                old(ctx).rgsw_base_log as int,
                old(ctx).rgsw_level_count as int,
                old(ctx).poly_size as nat,
                (1u64 << old(ctx).std_rlwe) as int,
            ),
        ctx_params_unchanged(old(ctx), final(ctx)),
{
    let k = ctx.k;
    let ghost n = ctx.poly_size as nat;
    let ghost s = global_rlwe_sk.poly@;
    let ghost base = ctx.rgsw_base_log as int;
    let ghost levels = ctx.rgsw_level_count as int;
    let ghost bound = (1u64 << ctx.std_rlwe) as int;
    let ghost mut draws: Seq<(Seq<Seq<Scalar>>, Seq<Seq<Scalar>>)> = Seq::empty();
    let mut l: Vec<RGSWCiphertext> = Vec::new();

    let mut ct0 = RGSWCiphertext::allocate(ctx.poly_size, ctx.rgsw_base_log, ctx.rgsw_level_count);
    let ptxt = RLWESecretKey::plaintext_index(0, 1, ctx);
    global_rlwe_sk.encrypt_wrapping_rgsw(&mut ct0, &ptxt, ctx);
    proof {
        assert(ptxt@ =~= const_poly(1, n));
        crate::rgsw::lemma_rgsw_encrypts_halves(ct0.rows@, s, ptxt@, base, bound);
        draws = draws.push((rgsw_masks(ct0.rows@), rgsw_bodies(ct0.rows@)));
        lemma_rgsw_halves_wf(ct0, levels, n);
    }
    l.push(ct0);

    let mut i: usize = 0;
    while i < k
        invariant
            k == ctx.k,
            n == ctx.poly_size as nat,
            s == global_rlwe_sk.poly@,
            base == ctx.rgsw_base_log as int,
            levels == ctx.rgsw_level_count as int,
            bound == (1u64 << ctx.std_rlwe) as int,
            ctx.wf(),
            ctx_params_unchanged(old(ctx), ctx),
            global_rlwe_sk.poly@.len() == ctx.poly_size,
            i <= k,
            l@.len() == i + 1,
            draws.len() == i + 1,
            forall|t: int|
                0 <= t < l@.len() ==> (#[trigger] l@[t]).wf(n) && l@[t].base_log
                    == ctx.rgsw_base_log && l@[t].level_count == ctx.rgsw_level_count,
            forall|d: int|
                0 <= d < draws.len() ==> halves_wf((#[trigger] draws[d]).0, draws[d].1, levels, n),
            rgsw_encrypts_halves(draws[0].0, draws[0].1, s, const_poly(1, n), base, bound),
            forall|d: int|
                1 <= d < draws.len() ==> rgsw_encrypts_halves(
                    (#[trigger] draws[d]).0,
                    draws[d].1,
                    s,
                    const_poly(0, n),
                    base,
                    bound,
                ),
            forall|t: int|
                0 <= t < l@.len() ==> rgsw_masks((#[trigger] l@[t]).rows@) == draws[t].0
                    && rgsw_bodies(l@[t].rows@) == draws[t].1,
        decreases k - i,
    {
        let mut ct = RGSWCiphertext::allocate(ctx.poly_size, ctx.rgsw_base_log, ctx.rgsw_level_count);
        let zero_ptxt = poly_zero(ctx.poly_size);
        global_rlwe_sk.encrypt_wrapping_rgsw(&mut ct, &zero_ptxt, ctx);
        proof {
            assert(zero_ptxt@ =~= const_poly(0, n));
            crate::rgsw::lemma_rgsw_encrypts_halves(ct.rows@, s, zero_ptxt@, base, bound);
            draws = draws.push((rgsw_masks(ct.rows@), rgsw_bodies(ct.rows@)));
            lemma_rgsw_halves_wf(ct, levels, n);
        }
        l.push(ct);
        i = i + 1;
    }

    proof {
        assert(indicator_fold(c@, draws, 0, k as int, base, levels, n) =~= Seq::new(
            (k + 1) as nat,
            |t: int| draws[t],
        ));
    }
    let mut j: usize = 0;
    while j < k
        invariant
            k == ctx.k,
            n == ctx.poly_size as nat,
            s == global_rlwe_sk.poly@,
            base == ctx.rgsw_base_log as int,
            levels == ctx.rgsw_level_count as int,
            bound == (1u64 << ctx.std_rlwe) as int,
            ctx.wf(),
            ctx_params_unchanged(old(ctx), ctx),
            global_rlwe_sk.poly@.len() == ctx.poly_size,
            c@.len() == k,
            forall|t: int|
                0 <= t < c@.len() ==> (#[trigger] c@[t]).wf(n) && c@[t].base_log
                    == ctx.rgsw_base_log && c@[t].level_count == ctx.rgsw_level_count,
            j <= k,
            l@.len() == k + 1,
            draws.len() == k + 1 + j,
            forall|t: int|
                0 <= t < l@.len() ==> (#[trigger] l@[t]).wf(n) && l@[t].base_log
                    == ctx.rgsw_base_log && l@[t].level_count == ctx.rgsw_level_count,
            forall|d: int|
                0 <= d < draws.len() ==> halves_wf((#[trigger] draws[d]).0, draws[d].1, levels, n),
            rgsw_encrypts_halves(draws[0].0, draws[0].1, s, const_poly(1, n), base, bound),
            forall|d: int|
                1 <= d <= k ==> rgsw_encrypts_halves(
                    (#[trigger] draws[d]).0,
                    draws[d].1,
                    s,
                    const_poly(0, n),
                    base,
                    bound,
                ),
            forall|d: int|
                k + 1 <= d < draws.len() ==> rgsw_encrypts_halves(
                    (#[trigger] draws[d]).0,
                    draws[d].1,
                    s,
                    const_poly(1, n),
                    base,
                    bound,
                ),
            forall|t: int|
                0 <= t <= k ==> rgsw_masks((#[trigger] l@[t]).rows@) == indicator_fold(
                    c@,
                    draws,
                    j as int,
                    k as int,
                    base,
                    levels,
                    n,
                )[t].0 && rgsw_bodies(l@[t].rows@) == indicator_fold(
                    c@,
                    draws,
                    j as int,
                    k as int,
                    base,
                    levels,
                    n,
                )[t].1,
        decreases k - j,
    {
        let ghost prev_state = indicator_fold(c@, draws, j as int, k as int, base, levels, n);
        let ghost cm = rgsw_masks(c@[j as int].rows@);
        let ghost cb = rgsw_bodies(c@[j as int].rows@);

        let mut l_prime: Vec<RGSWCiphertext> = Vec::new();

        let mut ct_one = RGSWCiphertext::allocate(
            ctx.poly_size,
            ctx.rgsw_base_log,
            ctx.rgsw_level_count,
        );
        let ptxt = RLWESecretKey::plaintext_index(0, 1, ctx);
        global_rlwe_sk.encrypt_wrapping_rgsw(&mut ct_one, &ptxt, ctx);
        let ghost onem = rgsw_masks(ct_one.rows@);
        let ghost oneb = rgsw_bodies(ct_one.rows@);
        let ghost draws_old = draws;
        proof {
            assert(ptxt@ =~= const_poly(1, n));
            crate::rgsw::lemma_rgsw_encrypts_halves(ct_one.rows@, s, ptxt@, base, bound);
            draws = draws.push((onem, oneb));
            lemma_rgsw_halves_wf(ct_one, levels, n);
            lemma_indicator_fold_prefix(
                c@,
                draws_old,
                draws,
                j as int,
                k as int,
                base,
                levels,
                n,
            );
            assert(prev_state == indicator_fold(c@, draws, j as int, k as int, base, levels, n));
        }
        let ghost step_state = indicator_step(cm, cb, onem, oneb, prev_state, k as int, base, levels, n);
        ct_one.sub_ciphertext(&c[j]);
        proof {
            assert(rgsw_masks(ct_one.rows@) =~= sub_halves(onem, cm));
            assert(rgsw_bodies(ct_one.rows@) =~= sub_halves(oneb, cb));
        }

        let mut ct = RGSWCiphertext::allocate(ctx.poly_size, ctx.rgsw_base_log, ctx.rgsw_level_count);
        ct_one.internal_product(&mut ct, &l[0], ctx);
        proof {
            assert(rgsw_masks(l@[0].rows@) == prev_state[0].0);
            assert(rgsw_masks(ct.rows@) =~= step_state[0].0) by {
                assert forall|e: int| 0 <= e < 2 * levels implies rgsw_masks(ct.rows@)[e]
                    == step_state[0].0[e] by {
                    assert(rgsw_masks(ct.rows@)[e] == ct.rows@[e].mask@);
                    assert(prev_state[0].0[e] == l@[0].rows@[e].mask@);
                    assert(prev_state[0].1[e] == l@[0].rows@[e].body@);
                }
            }
            assert(rgsw_bodies(ct.rows@) =~= step_state[0].1) by {
                assert forall|e: int| 0 <= e < 2 * levels implies rgsw_bodies(ct.rows@)[e]
                    == step_state[0].1[e] by {
                    assert(rgsw_bodies(ct.rows@)[e] == ct.rows@[e].body@);
                    assert(prev_state[0].0[e] == l@[0].rows@[e].mask@);
                    assert(prev_state[0].1[e] == l@[0].rows@[e].body@);
                }
            }
        }
        l_prime.push(ct);

        let mut i2: usize = 1;
        while i2 < k + 1
            invariant
                k == ctx.k,
                n == ctx.poly_size as nat,
                s == global_rlwe_sk.poly@,
                base == ctx.rgsw_base_log as int,
                levels == ctx.rgsw_level_count as int,
                bound == (1u64 << ctx.std_rlwe) as int,
                ctx.wf(),
                ctx_params_unchanged(old(ctx), ctx),
                global_rlwe_sk.poly@.len() == ctx.poly_size,
                c@.len() == k,
                j < k,
                forall|t: int|
                    0 <= t < c@.len() ==> (#[trigger] c@[t]).wf(n) && c@[t].base_log
                        == ctx.rgsw_base_log && c@[t].level_count == ctx.rgsw_level_count,
                l@.len() == k + 1,
                forall|t: int|
                    0 <= t < l@.len() ==> (#[trigger] l@[t]).wf(n) && l@[t].base_log
                        == ctx.rgsw_base_log && l@[t].level_count == ctx.rgsw_level_count,
                forall|t: int|
                    0 <= t <= k ==> rgsw_masks((#[trigger] l@[t]).rows@) == prev_state[t].0
                        && rgsw_bodies(l@[t].rows@) == prev_state[t].1,
                cm == rgsw_masks(c@[j as int].rows@),
                cb == rgsw_bodies(c@[j as int].rows@),
                step_state == indicator_step(cm, cb, onem, oneb, prev_state, k as int, base, levels, n),
                1 <= i2 <= k + 1,
                l_prime@.len() == i2,
                forall|t: int|
                    0 <= t < l_prime@.len() ==> (#[trigger] l_prime@[t]).wf(n)
                        && l_prime@[t].base_log == ctx.rgsw_base_log && l_prime@[t].level_count
                        == ctx.rgsw_level_count,
                forall|t: int|
                    0 <= t < l_prime@.len() ==> rgsw_masks((#[trigger] l_prime@[t]).rows@)
                        == step_state[t].0 && rgsw_bodies(l_prime@[t].rows@) == step_state[t].1,
            decreases k + 1 - i2,
        {
            let mut aux = RGSWCiphertext::allocate(
                ctx.poly_size,
                ctx.rgsw_base_log,
                ctx.rgsw_level_count,
            );
            aux.fill_with_copy(&l[i2 - 1]);
            aux.sub_ciphertext(&l[i2]);
            proof {
                assert(rgsw_masks(aux.rows@) =~= sub_halves(prev_state[i2 - 1].0, prev_state[i2 as int].0))
                    by {
                    assert forall|e: int| 0 <= e < 2 * levels implies rgsw_masks(aux.rows@)[e]
                        == sub_halves(prev_state[i2 - 1].0, prev_state[i2 as int].0)[e] by {
                        assert(prev_state[i2 - 1].0[e] == l@[i2 - 1].rows@[e].mask@);
                        assert(prev_state[i2 as int].0[e] == l@[i2 as int].rows@[e].mask@);
                    }
                }
                assert(rgsw_bodies(aux.rows@) =~= sub_halves(prev_state[i2 - 1].1, prev_state[i2 as int].1))
                    by {
                    assert forall|e: int| 0 <= e < 2 * levels implies rgsw_bodies(aux.rows@)[e]
                        == sub_halves(prev_state[i2 - 1].1, prev_state[i2 as int].1)[e] by {
                        assert(prev_state[i2 - 1].1[e] == l@[i2 - 1].rows@[e].body@);
                        assert(prev_state[i2 as int].1[e] == l@[i2 as int].rows@[e].body@);
                    }
                }
            }

            let mut ct2 = RGSWCiphertext::allocate(
                ctx.poly_size,
                ctx.rgsw_base_log,
                ctx.rgsw_level_count,
            );
            c[j].internal_product(&mut ct2, &aux, ctx);
            ct2.add_ciphertext(&l[i2]);
            proof {
                assert(rgsw_masks(ct2.rows@) =~= step_state[i2 as int].0) by {
                    assert forall|e: int| 0 <= e < 2 * levels implies rgsw_masks(ct2.rows@)[e]
                        == step_state[i2 as int].0[e] by {
                        assert(rgsw_masks(ct2.rows@)[e] == ct2.rows@[e].mask@);
                        assert(prev_state[i2 as int].0[e] == l@[i2 as int].rows@[e].mask@);
                    }
                }
                assert(rgsw_bodies(ct2.rows@) =~= step_state[i2 as int].1) by {
                    assert forall|e: int| 0 <= e < 2 * levels implies rgsw_bodies(ct2.rows@)[e]
                        == step_state[i2 as int].1[e] by {
                        assert(rgsw_bodies(ct2.rows@)[e] == ct2.rows@[e].body@);
                        assert(prev_state[i2 as int].1[e] == l@[i2 as int].rows@[e].body@);
                    }
                }
            }
            l_prime.push(ct2);
            i2 = i2 + 1;
        }
        l = l_prime;
        proof {
            assert(indicator_fold(c@, draws, j + 1, k as int, base, levels, n) == step_state);
        }
        j = j + 1;
    }
    proof {
        assert(indicator_outcome(
            draws,
            c@,
            l@,
            k as int,
            s,
            base,
            levels,
            n,
            bound,
        ));
    }
    l
}

/// A well-formed RGSW ciphertext has well-formed halves.
proof fn lemma_rgsw_halves_wf(ct: RGSWCiphertext, levels: int, n: nat)
    requires
        ct.rows@.len() == 2 * levels,
        forall|r: int| 0 <= r < ct.rows@.len() ==> (#[trigger] ct.rows@[r]).wf(n),
    ensures
        halves_wf(rgsw_masks(ct.rows@), rgsw_bodies(ct.rows@), levels, n),
{
    assert forall|r: int| 0 <= r < rgsw_masks(ct.rows@).len() implies (#[trigger] rgsw_masks(
        ct.rows@,
    )[r]).len() == n by {
        assert((#[trigger] ct.rows@[r]).wf(n));
    }
    assert forall|r: int| 0 <= r < rgsw_bodies(ct.rows@).len() implies (#[trigger] rgsw_bodies(
        ct.rows@,
    )[r]).len() == n by {
        assert((#[trigger] ct.rows@[r]).wf(n));
    }
}


impl LWESecretKey {
    /// Decrypt a 32-bit modulus-switched ciphertext: subtract the inner
    /// product of the mask with the key's low words, all in `Z_{2^32}`.
    pub fn decrypt_lwe32(&self, pt: &mut u32, ct: &LWECiphertext32)
        requires
            ct.mask@.len() == self.key@.len(),
        ensures
            *final(pt) == lwe_phase32(ct.mask@, ct.body, self.key@),
    {
        let ghost q32: int = 0x1_0000_0000;
        let n = ct.mask.len();
        let mut acc: u32 = 0;
        let mut j: usize = 0;
        proof {
            vstd::arithmetic::div_mod::lemma_small_mod(0nat, q32 as nat);
        }
        while j < n
            invariant
                n == ct.mask@.len(),
                n == self.key@.len(),
                q32 == 0x1_0000_0000,
                j <= n,
                acc as int == lwe_dot32(ct.mask@, self.key@, j as int) % q32,
            decreases n - j,
        {
            let key_lo: u32 = (self.key[j] % 0x1_0000_0000) as u32;
            let t = ct.mask[j].wrapping_mul(key_lo);
            let acc2 = acc.wrapping_add(t);
            proof {
                let pj = lwe_dot32(ct.mask@, self.key@, j as int);
                let prod = ct.mask@[j as int] * ((self.key@[j as int] as int) % q32);
                vstd::arithmetic::div_mod::lemma_add_mod_noop(pj, prod, q32);
                vstd::arithmetic::div_mod::lemma_mod_twice(pj, q32);
                vstd::arithmetic::div_mod::lemma_mod_twice(prod, q32);
            }
            acc = acc2;
            j = j + 1;
        }
        *pt = ct.body.wrapping_sub(acc);
    }
}

impl RLWESecretKey {
    /// Reinterpret the ring key as an LWE key with the same coefficients.
    pub fn to_lwe_secretkey(&self) -> (r: LWESecretKey)
        ensures
            r.key@ == self.poly@,
    {
        let mut out = LWESecretKey::zero(self.poly.len());
        let copy = self.poly.clone();
        proof {
            assert(copy@ =~= self.poly@);
        }
        out.key = copy;
        out
    }
}

/// `sum over j in 1..=m of a[n-j] * s[j]`, the extraction-order pairing.
spec fn extract_sum(a: Seq<Scalar>, s: Seq<Scalar>, m: int) -> int
    decreases m,
{
    if m <= 0 {
        0
    } else {
        extract_sum(a, s, m - 1) + a[a.len() - m] * s[m]
    }
}

/// `sum over j in 1..=m of a[j] * s[n-j]`, the convolution-order pairing.
spec fn conv_sum(a: Seq<Scalar>, s: Seq<Scalar>, m: int) -> int
    decreases m,
{
    if m <= 0 {
        0
    } else {
        conv_sum(a, s, m - 1) + a[m] * s[a.len() - m]
    }
}

/// The two pairings cover the same products: reading the mask backwards from
/// the top is reading the convolution forwards.
proof fn lemma_extract_sum_reindex(a: Seq<Scalar>, s: Seq<Scalar>, m: int)
    requires
        a.len() == s.len(),
        a.len() >= 1,
        0 <= m < a.len(),
    ensures
        extract_sum(a, s, a.len() - 1) - extract_sum(a, s, a.len() - 1 - m) == conv_sum(a, s, m),
    decreases m,
{
    if m > 0 {
        lemma_extract_sum_reindex(a, s, m - 1);
        let n = a.len() as int;
        // peeling one more term off the high end of the extraction sum
        assert(extract_sum(a, s, n - m) == extract_sum(a, s, n - m - 1) + a[m] * s[n - m]);
    }
}

/// The first `m` terms of the inner product of the extracted mask agree,
/// modulo `q`, with the matching difference of head term and convolution.
proof fn lemma_extract_dot(
    a: Seq<Scalar>,
    s: Seq<Scalar>,
    emask: Seq<Scalar>,
    m: int,
)
    requires
        a.len() == s.len(),
        emask.len() == s.len(),
        1 <= a.len(),
        emask[0] == a[0],
        forall|j: int| 1 <= j < s.len() ==> emask[j] == wneg(a[s.len() - j]),
        1 <= m <= a.len(),
    ensures
        lwe_dot(emask, s, m) % spec_q() == (a[0] * s[0] - extract_sum(a, s, m - 1)) % spec_q(),
    decreases m,
{
    let q = spec_q();
    if m == 1 {
        assert(lwe_dot(emask, s, 0) == 0);
        assert(extract_sum(a, s, 0) == 0);
        assert(lwe_dot(emask, s, 1) == a[0] * s[0]);
    } else {
        lemma_extract_dot(a, s, emask, m - 1);
        let n = a.len() as int;
        let prev = lwe_dot(emask, s, m - 1);
        let term = emask[m - 1] * s[m - 1];
        assert(lwe_dot(emask, s, m) == prev + term);
        // wneg(x) * y is congruent to -(x * y)
        let x = a[n - (m - 1)];
        let y = s[m - 1];
        assert(emask[m - 1] == wneg(x));
        assert((wneg(x) as int) % q == (0 - x) % q) by {
            vstd::arithmetic::div_mod::lemma_mod_twice(0 - x, q);
        }
        assert((wneg(x) * y) % q == ((0 - x) * y) % q) by {
            vstd::arithmetic::div_mod::lemma_mul_mod_noop_left(wneg(x) as int, y as int, q);
            vstd::arithmetic::div_mod::lemma_mul_mod_noop_left(0 - x, y as int, q);
        }
        assert((0 - x) * y == -(x * y)) by {
            vstd::arithmetic::mul::lemma_mul_unary_negation(x as int, y as int);
        }
        // fold the congruent term into the running sum
        vstd::arithmetic::div_mod::lemma_add_mod_noop(prev, term as int, q);
        vstd::arithmetic::div_mod::lemma_add_mod_noop(
            a[0] * s[0] - extract_sum(a, s, m - 2),
            -(x * y),
        q);
        assert(extract_sum(a, s, m - 1) == extract_sum(a, s, m - 2) + x * y);
        vstd::arithmetic::div_mod::lemma_mod_twice(prev, q);
        vstd::arithmetic::div_mod::lemma_mod_twice(term as int, q);
        vstd::arithmetic::div_mod::lemma_mod_twice(-(x * y), q);
        vstd::arithmetic::div_mod::lemma_mod_twice(a[0] * s[0] - extract_sum(a, s, m - 2), q);
    }
}

/// The constant negacyclic coefficient in sum form: head term minus the
/// convolution pairing.
proof fn lemma_nc_partial_zero_coeff(a: Seq<Scalar>, s: Seq<Scalar>, m: int)
    requires
        a.len() == s.len(),
        1 <= a.len(),
        1 <= m <= a.len(),
    ensures
        crate::poly::nc_partial(a, s, 0, m) == a[0] * s[0] - conv_sum(a, s, m - 1),
    decreases m,
{
    if m == 1 {
        assert(crate::poly::nc_partial(a, s, 0, 0) == 0);
        assert(conv_sum(a, s, 0) == 0);
        assert(crate::poly::nc_term(a, s, 0, 0) == a[0] * s[0]);
    } else {
        lemma_nc_partial_zero_coeff(a, s, m - 1);
        assert(crate::poly::nc_term(a, s, 0, m - 1) == -(a[m - 1] * s[a.len() - (m - 1)]));
    }
}

/// Sample extraction is faithful: the phase of the extracted LWE ciphertext,
/// under the ring key read as a vector, is the constant coefficient of the
/// ring ciphertext's phase.
pub proof fn lemma_sample_extract_phase(
    a: Seq<Scalar>,
    b: Seq<Scalar>,
    s: Seq<Scalar>,
    emask: Seq<Scalar>,
)
    requires
        a.len() == s.len(),
        b.len() == s.len(),
        emask.len() == s.len(),
        s.len() >= 1,
        emask[0] == a[0],
        forall|j: int| 1 <= j < s.len() ==> emask[j] == wneg(a[s.len() - j]),
    ensures
        lwe_phase(emask, b[0], s) == crate::rlwe::rlwe_phase(a, b, s)[0],
{
    let q = spec_q();
    let n = a.len() as int;
    lemma_extract_dot(a, s, emask, n);
    lemma_extract_sum_reindex(a, s, n - 1);
    assert(extract_sum(a, s, 0) == 0);
    assert(extract_sum(a, s, n - 1) == conv_sum(a, s, n - 1));
    lemma_nc_partial_zero_coeff(a, s, n);
    assert(lwe_dot(emask, s, n) % q == crate::poly::nc_partial(a, s, 0, n) % q);
    assert(crate::poly::ncmul(a, s)[0] == crate::poly::ncmul_coeff(a, s, 0));
}

/// Partial inner products are additive in the mask, modulo `q`.
proof fn lemma_lwe_dot_linear(a1: Seq<Scalar>, a2: Seq<Scalar>, s: Seq<Scalar>, j: int)
    requires
        a1.len() == a2.len(),
        a1.len() == s.len(),
        0 <= j <= s.len(),
    ensures
        lwe_dot(seq_wadd(a1, a2), s, j) % spec_q() == (lwe_dot(a1, s, j) + lwe_dot(a2, s, j))
            % spec_q(),
    decreases j,
{
    let q = spec_q();
    if j > 0 {
        lemma_lwe_dot_linear(a1, a2, s, j - 1);
        let u = a1[j - 1];
        let v = a2[j - 1];
        let w = s[j - 1];
        assert((wadd(u, v) * w) % q == ((u + v) * w) % q) by {
            vstd::arithmetic::div_mod::lemma_mul_mod_noop_left(u + v, w as int, q);
            vstd::arithmetic::div_mod::lemma_mod_bound(u + v, q);
        }
        assert((u + v) * w == u * w + v * w) by {
            vstd::arithmetic::mul::lemma_mul_is_distributive_add_other_way(
                w as int,
                u as int,
                v as int,
            );
        }
        let p12 = lwe_dot(seq_wadd(a1, a2), s, j - 1);
        let t12 = wadd(u, v) * w;
        let p1 = lwe_dot(a1, s, j - 1);
        let p2 = lwe_dot(a2, s, j - 1);
        vstd::arithmetic::div_mod::lemma_add_mod_noop(p12, t12, q);
        vstd::arithmetic::div_mod::lemma_add_mod_noop(p1 + p2, u * w + v * w, q);
        vstd::arithmetic::div_mod::lemma_mod_twice(p12, q);
        vstd::arithmetic::div_mod::lemma_mod_twice(t12, q);
        vstd::arithmetic::div_mod::lemma_mod_twice(u * w + v * w, q);
        vstd::arithmetic::div_mod::lemma_mod_twice(p1 + p2, q);
        assert(lwe_dot(seq_wadd(a1, a2), s, j) == p12 + t12);
    }
}

/// Homomorphic addition for LWE ciphertexts: the phase of the componentwise
/// sum is the wrapping sum of the phases, so decrypting `c1 + c2` gives
/// `decrypt(c1) + decrypt(c2)` in `Z_q`.
pub proof fn lemma_lwe_add_homomorphic(
    mask1: Seq<Scalar>,
    body1: Scalar,
    mask2: Seq<Scalar>,
    body2: Scalar,
    s: Seq<Scalar>,
)
    requires
        mask1.len() == s.len(),
        mask2.len() == s.len(),
    ensures
        lwe_phase(seq_wadd(mask1, mask2), wadd(body1, body2), s) == wadd(
            lwe_phase(mask1, body1, s),
            lwe_phase(mask2, body2, s),
        ),
{
    let q = spec_q();
    let n = s.len() as int;
    lemma_lwe_dot_linear(mask1, mask2, s, n);
    let d1 = (lwe_dot(mask1, s, n) % q) as Scalar;
    let d2 = (lwe_dot(mask2, s, n) % q) as Scalar;
    let d12 = (lwe_dot(seq_wadd(mask1, mask2), s, n) % q) as Scalar;
    assert(d12 == wadd(d1, d2)) by {
        vstd::arithmetic::div_mod::lemma_add_mod_noop(
            lwe_dot(mask1, s, n),
            lwe_dot(mask2, s, n),
            q,
        );
        vstd::arithmetic::div_mod::lemma_mod_bound(lwe_dot(mask1, s, n), q);
        vstd::arithmetic::div_mod::lemma_mod_bound(lwe_dot(mask2, s, n), q);
    }
    crate::lemma_wadd_wsub_exchange(body1, body2, d1, d2);
}

} // verus!
