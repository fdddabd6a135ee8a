//! RLWE ciphertexts, secret keys and shared-mask public keys over the
//! negacyclic ring, together with the round-trip laws that tie encryption,
//! decryption and the encoders together.
use vstd::prelude::*;
use crate::{Scalar, spec_q, wadd, wsub, signed, sabs, Context, ctx_params_unchanged};
use crate::poly::{
    seq_wadd, seq_wsub, ncmul, ncmul_exec, is_binary_poly, is_zero_poly, poly_zero,
    update_with_wrapping_add, update_with_wrapping_sub, update_with_product_monomial,
    update_with_wrapping_unit_monomial_div, mono_mul, mono_div, zero_seq, lemma_ncmul_zero,
    lemma_ncmul_linear,
};

verus! {

/// An RLWE ciphertext: a mask polynomial `a` and a body polynomial `b`.
/// It encrypts `m` under key `s` when `b - a*s = m + e` for small noise `e`.
pub struct RLWECiphertext {
    pub mask: Vec<Scalar>,
    pub body: Vec<Scalar>,
}

/// The phase `b - a*s` of an RLWE ciphertext: the noisy plaintext.
pub open spec fn rlwe_phase(mask: Seq<Scalar>, body: Seq<Scalar>, s: Seq<Scalar>) -> Seq<Scalar> {
    seq_wsub(body, ncmul(mask, s))
}

/// Two coefficient sequences agree up to noise of magnitude `bound`.
pub open spec fn close_to(a: Seq<Scalar>, b: Seq<Scalar>, bound: int) -> bool {
    &&& a.len() == b.len()
    &&& forall|i: int| 0 <= i < a.len() ==> sabs(wsub(a[i], b[i])) <= bound
}

impl RLWECiphertext {
    /// Both polynomials have `n` coefficients.
    pub open spec fn wf(&self, n: nat) -> bool {
        self.mask@.len() == n && self.body@.len() == n
    }

    /// The zero ciphertext at the given degree.
    pub fn allocate(poly_size: usize) -> (r: RLWECiphertext)
        ensures
            r.wf(poly_size as nat),
            is_zero_poly(r.mask@),
            is_zero_poly(r.body@),
    {
        RLWECiphertext { mask: poly_zero(poly_size), body: poly_zero(poly_size) }
    }

    /// The polynomial degree `N`.
    pub fn polynomial_size(&self) -> (r: usize)
        ensures
            r == self.mask@.len(),
    {
        self.mask.len()
    }

    /// Read access to the body polynomial.
    pub fn get_body(&self) -> (r: &Vec<Scalar>)
        ensures
            r@ == self.body@,
    {
        &self.body
    }

    /// Read access to the mask polynomial.
    pub fn get_mask(&self) -> (r: &Vec<Scalar>)
        ensures
            r@ == self.mask@,
    {
        &self.mask
    }

    /// Reset both polynomials to zero.
    pub fn clear(&mut self)
        ensures
            final(self).wf(old(self).mask@.len()),
            is_zero_poly(final(self).mask@),
            is_zero_poly(final(self).body@),
            final(self).mask@.len() == old(self).mask@.len(),
            final(self).body@.len() == old(self).mask@.len(),
    {
        let n = self.mask.len();
        self.mask = poly_zero(n);
        self.body = poly_zero(n);
    }

    /// Overwrite with a copy of `other`.
    pub fn fill_with_copy(&mut self, other: &RLWECiphertext)
        ensures
            final(self).mask@ == other.mask@,
            final(self).body@ == other.body@,
    {
        self.mask = other.mask.clone();
        self.body = other.body.clone();
    }

    /// Add a polynomial into the mask.
    pub fn update_mask_with_add(&mut self, other: &Vec<Scalar>)
        requires
            old(self).mask@.len() == other@.len(),
        ensures
            final(self).mask@ == seq_wadd(old(self).mask@, other@),
            final(self).body@ == old(self).body@,
    {
        update_with_wrapping_add(&mut self.mask, other);
    }

    /// Subtract a polynomial from the mask.
    pub fn update_mask_with_sub(&mut self, other: &Vec<Scalar>)
        requires
            old(self).mask@.len() == other@.len(),
        ensures
            final(self).mask@ == seq_wsub(old(self).mask@, other@),
            final(self).body@ == old(self).body@,
    {
        update_with_wrapping_sub(&mut self.mask, other);
    }

    /// Add a polynomial into the body.
    pub fn update_body_with_add(&mut self, other: &Vec<Scalar>)
        requires
            old(self).body@.len() == other@.len(),
        ensures
            final(self).body@ == seq_wadd(old(self).body@, other@),
            final(self).mask@ == old(self).mask@,
    {
        update_with_wrapping_add(&mut self.body, other);
    }

    /// Subtract a polynomial from the body.
    pub fn update_body_with_sub(&mut self, other: &Vec<Scalar>)
        requires
            old(self).body@.len() == other@.len(),
        ensures
            final(self).body@ == seq_wsub(old(self).body@, other@),
            final(self).mask@ == old(self).mask@,
    {
        update_with_wrapping_sub(&mut self.body, other);
    }

    /// Componentwise wrapping addition of another ciphertext.
    pub fn update_with_add(&mut self, other: &RLWECiphertext)
        requires
            old(self).mask@.len() == other.mask@.len(),
            old(self).body@.len() == other.body@.len(),
        ensures
            final(self).mask@ == seq_wadd(old(self).mask@, other.mask@),
            final(self).body@ == seq_wadd(old(self).body@, other.body@),
    {
        update_with_wrapping_add(&mut self.mask, &other.mask);
        update_with_wrapping_add(&mut self.body, &other.body);
    }

    /// Componentwise wrapping subtraction of another ciphertext.
    pub fn update_with_sub(&mut self, other: &RLWECiphertext)
        requires
            old(self).mask@.len() == other.mask@.len(),
            old(self).body@.len() == other.body@.len(),
        ensures
            final(self).mask@ == seq_wsub(old(self).mask@, other.mask@),
            final(self).body@ == seq_wsub(old(self).body@, other.body@),
    {
        update_with_wrapping_sub(&mut self.mask, &other.mask);
        update_with_wrapping_sub(&mut self.body, &other.body);
    }

    /// Multiply both polynomials by the monic monomial `X^degree`.
    pub fn update_with_monomial_mul(&mut self, degree: usize)
        requires
            1 <= old(self).mask@.len() <= 0x1000_0000,
            old(self).body@.len() == old(self).mask@.len(),
        ensures
            final(self).mask@ == mono_mul(old(self).mask@, degree as int),
            final(self).body@ == mono_mul(old(self).body@, degree as int),
    {
        update_with_product_monomial(&mut self.mask, degree);
        update_with_product_monomial(&mut self.body, degree);
    }

    /// Divide both polynomials by the monic monomial `X^degree`.
    pub fn update_with_monomial_div(&mut self, degree: usize)
        requires
            1 <= old(self).mask@.len() <= 0x1000_0000,
            old(self).body@.len() == old(self).mask@.len(),
        ensures
            final(self).mask@ == mono_div(old(self).mask@, degree as int),
            final(self).body@ == mono_div(old(self).body@, degree as int),
    {
        update_with_wrapping_unit_monomial_div(&mut self.mask, degree);
        update_with_wrapping_unit_monomial_div(&mut self.body, degree);
    }
}

/// An RLWE secret key: a polynomial, binary when freshly generated; the
/// joint key of `k` parties has coefficients up to `k`.
pub struct RLWESecretKey {
    pub poly: Vec<Scalar>,
}

impl RLWESecretKey {
    /// The key has `n` coefficients.
    pub open spec fn wf(&self, n: nat) -> bool {
        self.poly@.len() == n
    }

    /// Generate a key with uniform binary coefficients.
    pub fn generate_binary(
        poly_size: usize,
        generator: &mut crate::rng::SecretRandomGenerator,
    ) -> (r: RLWESecretKey)
        ensures
            r.poly@.len() == poly_size,
            is_binary_poly(r.poly@),
    {
        RLWESecretKey { poly: generator.gen_binary_vec(poly_size) }
    }

    /// The all-zero key.
    pub fn zero(poly_size: usize) -> (r: RLWESecretKey)
        ensures
            r.poly@.len() == poly_size,
            is_zero_poly(r.poly@),
    {
        RLWESecretKey { poly: poly_zero(poly_size) }
    }

    /// Rotate the key polynomial by the monic monomial `X^degree`.
    pub fn rotate(&mut self, degree: usize)
        requires
            1 <= old(self).poly@.len() <= 0x1000_0000,
        ensures
            final(self).poly@ == mono_mul(old(self).poly@, degree as int),
    {
        update_with_product_monomial(&mut self.poly, degree);
    }

    /// Overwrite the key coefficients with a copy of `t`.
    pub fn fill_with_copy(&mut self, t: &Vec<Scalar>)
        ensures
            final(self).poly@ == t@,
    {
        self.poly = t.clone();
        proof {
            assert(self.poly@ =~= t@);
        }
    }

    /// Accumulate another key share into this key, coefficientwise.
    pub fn update_with_wrapping_add(&mut self, other: &RLWESecretKey)
        requires
            old(self).poly@.len() == other.poly@.len(),
        ensures
            final(self).poly@ == seq_wadd(old(self).poly@, other.poly@),
    {
        update_with_wrapping_add(&mut self.poly, &other.poly);
    }

    /// Read access to the key coefficients.
    pub fn as_tensor(&self) -> (r: &Vec<Scalar>)
        ensures
            r@ == self.poly@,
    {
        &self.poly
    }

    /// The polynomial degree `N`.
    pub fn polynomial_size(&self) -> (r: usize)
        ensures
            r == self.poly@.len(),
    {
        self.poly.len()
    }

    /// A plaintext with `ctnt` at `index` and 0 everywhere else.
    pub fn plaintext_index(index: usize, ctnt: Scalar, ctx: &Context) -> (r: Vec<Scalar>)
        requires
            index < ctx.poly_size,
        ensures
            r@.len() == ctx.poly_size,
            r@[index as int] == ctnt,
            forall|i: int| 0 <= i < r@.len() && i != index ==> r@[i] == 0,
    {
        crate::plaintext_index(index, ctnt, ctx)
    }

    /// As [`Self::plaintext_index`], at an explicit coefficient count.
    pub fn plaintext_index2(index: usize, ctnt: Scalar, count: usize) -> (r: Vec<Scalar>)
        requires
            index < count,
        ensures
            r@.len() == count,
            r@[index as int] == ctnt,
            forall|i: int| 0 <= i < r@.len() && i != index ==> r@[i] == 0,
    {
        let mut v = poly_zero(count);
        v.set(index, ctnt);
        v
    }

    /// Encrypt `pt`: draw a uniform mask `a` and noise `e` of magnitude at
    /// most `2^noise_bits`, and set the body to `a*s + pt + e`. Whatever the
    /// draws, the phase of the result lands within the noise bound of `pt`.
    pub fn encrypt_rlwe(
        &self,
        encrypted: &mut RLWECiphertext,
        pt: &Vec<Scalar>,
        noise_bits: u64,
        generator: &mut crate::rng::EncryptionRandomGenerator,
    )
        requires
            1 <= self.poly@.len() <= 0x1000_0000,
            pt@.len() == self.poly@.len(),
            noise_bits <= 60,
        ensures
            final(encrypted).wf(self.poly@.len()),
            close_to(
                rlwe_phase(final(encrypted).mask@, final(encrypted).body@, self.poly@),
                pt@,
                (1u64 << noise_bits) as int,
            ),
    {
        let n = self.poly.len();
        let a = generator.gen_uniform_vec(n);
        let e = generator.gen_noise_vec(n, noise_bits);
        let mut body = ncmul_exec(&a, &self.poly);
        let ghost prod = body@;
        update_with_wrapping_add(&mut body, pt);
        update_with_wrapping_add(&mut body, &e);
        encrypted.mask = a;
        encrypted.body = body;
        proof {
            let s = self.poly@;
            let phase = rlwe_phase(encrypted.mask@, encrypted.body@, s);
            assert forall|i: int| 0 <= i < n implies sabs(wsub(phase[i], pt@[i])) <= (1u64
                << noise_bits) as int by {
                let m = prod[i];
                let p = pt@[i];
                let ev = e@[i];
                assert(encrypted.body@[i] == wadd(wadd(m, p), ev));
                crate::lemma_wadd_assoc(m, p, ev);
                crate::lemma_wsub_cancel(m, wadd(p, ev));
                assert(phase[i] == wadd(p, ev));
                crate::lemma_wadd_comm(p, ev);
                crate::lemma_wsub_cancel(p, ev);
                assert(wsub(phase[i], p) == ev);
            }
        }
    }

    /// Binary-encode `pt` and encrypt it at the context noise width.
    pub fn binary_encrypt_rlwe(
        &self,
        encrypted: &mut RLWECiphertext,
        pt: &Vec<Scalar>,
        ctx: &mut Context,
    )
        requires
            old(ctx).wf(),
            1 <= self.poly@.len() <= 0x1000_0000,
            pt@.len() == self.poly@.len(),
            is_binary_poly(pt@),
        ensures
            final(encrypted).wf(self.poly@.len()),
            close_to(
                rlwe_phase(final(encrypted).mask@, final(encrypted).body@, self.poly@),
                crate::binary_encode_seq(pt@),
                (1u64 << old(ctx).std) as int,
            ),
            ctx_params_unchanged(old(ctx), final(ctx)),
    {
        let mut binary_encoded = pt.clone();
        proof {
            assert(binary_encoded@ =~= pt@);
        }
        crate::poly_binary_encode(&mut binary_encoded);
        let noise_bits = ctx.std;
        self.encrypt_rlwe(encrypted, &binary_encoded, noise_bits, &mut ctx.encryption_generator);
    }

    /// Binary-encode `pt` and encrypt it at an explicit noise width.
    pub fn binary_encrypt_rlwe_with_noise(
        &self,
        encrypted: &mut RLWECiphertext,
        pt: &Vec<Scalar>,
        ctx: &mut Context,
        noise_bits: u64,
    )
        requires
            old(ctx).wf(),
            1 <= self.poly@.len() <= 0x1000_0000,
            pt@.len() == self.poly@.len(),
            is_binary_poly(pt@),
            noise_bits <= 60,
        ensures
            final(encrypted).wf(self.poly@.len()),
            close_to(
                rlwe_phase(final(encrypted).mask@, final(encrypted).body@, self.poly@),
                crate::binary_encode_seq(pt@),
                (1u64 << noise_bits) as int,
            ),
            ctx_params_unchanged(old(ctx), final(ctx)),
    {
        let mut binary_encoded = pt.clone();
        proof {
            assert(binary_encoded@ =~= pt@);
        }
        crate::poly_binary_encode(&mut binary_encoded);
        self.encrypt_rlwe(encrypted, &binary_encoded, noise_bits, &mut ctx.encryption_generator);
    }

    /// Ternary-encode `pt` and encrypt it at the context noise width.
    pub fn ternary_encrypt_rlwe(
        &self,
        encrypted: &mut RLWECiphertext,
        pt: &Vec<Scalar>,
        ctx: &mut Context,
    )
        requires
            old(ctx).wf(),
            1 <= self.poly@.len() <= 0x1000_0000,
            pt@.len() == self.poly@.len(),
            forall|i: int|
                0 <= i < pt@.len() ==> pt@[i] == 0 || pt@[i] == 1 || pt@[i] == Scalar::MAX,
        ensures
            final(encrypted).wf(self.poly@.len()),
            close_to(
                rlwe_phase(final(encrypted).mask@, final(encrypted).body@, self.poly@),
                crate::ternary_encode_seq(pt@),
                (1u64 << old(ctx).std) as int,
            ),
            ctx_params_unchanged(old(ctx), final(ctx)),
    {
        let mut ternary_encoded = pt.clone();
        proof {
            assert(ternary_encoded@ =~= pt@);
        }
        crate::poly_ternary_encode(&mut ternary_encoded);
        let noise_bits = ctx.std;
        self.encrypt_rlwe(encrypted, &ternary_encoded, noise_bits, &mut ctx.encryption_generator);
    }

    /// Encrypt the constant polynomial `pt`.
    pub fn encrypt_constant_rlwe(
        &self,
        encrypted: &mut RLWECiphertext,
        pt: Scalar,
        ctx: &mut Context,
    )
        requires
            old(ctx).wf(),
            1 <= self.poly@.len() <= 0x1000_0000,
            old(ctx).poly_size == self.poly@.len(),
        ensures
            final(encrypted).wf(self.poly@.len()),
            close_to(
                rlwe_phase(final(encrypted).mask@, final(encrypted).body@, self.poly@),
                Seq::new(self.poly@.len(), |i: int| if i == 0 { pt } else { 0 as Scalar }),
                (1u64 << old(ctx).std) as int,
            ),
            ctx_params_unchanged(old(ctx), final(ctx)),
    {
        let mut encoded = poly_zero(ctx.poly_size);
        encoded.set(0, pt);
        let noise_bits = ctx.std;
        self.encrypt_rlwe(encrypted, &encoded, noise_bits, &mut ctx.encryption_generator);
        proof {
            assert(encoded@ =~= Seq::new(
                self.poly@.len(),
                |i: int| if i == 0 { pt } else { 0 as Scalar },
            ));
        }
    }

    /// Decrypt: return the phase `b - a*s`, the noisy plaintext.
    pub fn decrypt_rlwe(&self, pt: &mut Vec<Scalar>, encrypted: &RLWECiphertext)
        requires
            1 <= self.poly@.len() <= 0x1000_0000,
            encrypted.wf(self.poly@.len()),
        ensures
            final(pt)@ == rlwe_phase(encrypted.mask@, encrypted.body@, self.poly@),
    {
        let prod = ncmul_exec(&encrypted.mask, &self.poly);
        let mut out = encrypted.body.clone();
        proof {
            assert(out@ =~= encrypted.body@);
        }
        update_with_wrapping_sub(&mut out, &prod);
        *pt = out;
    }

    /// Decrypt with explicitly wrapping arithmetic: the same phase.
    pub fn decrypt_wrapping_rlwe(&self, pt: &mut Vec<Scalar>, encrypted: &RLWECiphertext)
        requires
            1 <= self.poly@.len() <= 0x1000_0000,
            encrypted.wf(self.poly@.len()),
        ensures
            final(pt)@ == rlwe_phase(encrypted.mask@, encrypted.body@, self.poly@),
    {
        self.decrypt_rlwe(pt, encrypted);
    }

    /// Decrypt and then binary-decode.
    pub fn binary_decrypt_rlwe(&self, pt: &mut Vec<Scalar>, encrypted: &RLWECiphertext)
        requires
            1 <= self.poly@.len() <= 0x1000_0000,
            encrypted.wf(self.poly@.len()),
        ensures
            final(pt)@ == crate::binary_decode_seq(
                rlwe_phase(encrypted.mask@, encrypted.body@, self.poly@),
            ),
    {
        self.decrypt_rlwe(pt, encrypted);
        crate::poly_binary_decode(pt);
    }

    /// Decrypt and then ternary-decode.
    pub fn ternary_decrypt_rlwe(&self, pt: &mut Vec<Scalar>, encrypted: &RLWECiphertext)
        requires
            1 <= self.poly@.len() <= 0x1000_0000,
            encrypted.wf(self.poly@.len()),
        ensures
            final(pt)@ == crate::ternary_decode_seq(
                rlwe_phase(encrypted.mask@, encrypted.body@, self.poly@),
            ),
    {
        self.decrypt_rlwe(pt, encrypted);
        crate::poly_ternary_decode(pt);
    }
}

/// A noisy binary encoding within just under `q/4` of `m * q/2` decodes
/// to `m`.
pub proof fn lemma_binary_decode_near(m: Scalar, v: Scalar)
    requires
        m == 0 || m == 1,
        sabs(wsub(v, crate::wmul(m, crate::BINARY_DELTA))) <= 0x3fff_ffff_ffff_fffd,
    ensures
        crate::binary_decode_spec(v) == m,
{
    let q = spec_q();
    let enc = crate::wmul(m, crate::BINARY_DELTA);
    let e = wsub(v, enc);
    crate::lemma_wadd_cancel(enc, v);
    if m == 0 {
        assert(enc == 0) by {
            vstd::arithmetic::mul::lemma_mul_by_zero_is_zero(crate::BINARY_DELTA as int);
            vstd::arithmetic::div_mod::lemma_small_mod(0nat, q as nat);
        }
        assert(v == wadd(0, e));
        assert(wadd(0, e) == e) by {
            vstd::arithmetic::div_mod::lemma_small_mod(e as nat, q as nat);
        }
        if signed(e) >= 0 {
            assert(v < crate::BINARY_LOWER);
        } else {
            assert(v >= crate::BINARY_UPPER);
        }
    } else {
        assert(enc == crate::BINARY_DELTA) by {
            vstd::arithmetic::mul::lemma_mul_basics(crate::BINARY_DELTA as int);
            vstd::arithmetic::div_mod::lemma_small_mod(
                crate::BINARY_DELTA as nat,
                q as nat,
            );
        }
        assert(v == wadd(crate::BINARY_DELTA, e));
        if signed(e) >= 0 {
            assert(wadd(crate::BINARY_DELTA, e) == crate::BINARY_DELTA + e) by {
                vstd::arithmetic::div_mod::lemma_small_mod(
                    (crate::BINARY_DELTA + e) as nat,
                    q as nat,
                );
            }
        } else {
            assert(crate::BINARY_DELTA + e == (crate::BINARY_DELTA + signed(e)) + q);
            assert(wadd(crate::BINARY_DELTA, e) == crate::BINARY_DELTA + signed(e)) by {
                vstd::arithmetic::div_mod::lemma_mod_multiples_vanish(
                    1,
                    crate::BINARY_DELTA + signed(e),
                    q,
                );
                vstd::arithmetic::div_mod::lemma_small_mod(
                    (crate::BINARY_DELTA + signed(e)) as nat,
                    q as nat,
                );
            }
        }
        assert(crate::BINARY_LOWER <= v < crate::BINARY_UPPER);
    }
}

/// A noisy ternary encoding within `2^60` of its representative decodes back.
pub proof fn lemma_ternary_decode_near(m: Scalar, v: Scalar)
    requires
        m == 0 || m == 1 || m == Scalar::MAX,
        sabs(wsub(v, crate::ternary_encode_spec(m))) <= 0x1000_0000_0000_0000,
    ensures
        crate::ternary_decode_spec(v) == m,
{
    let q = spec_q();
    let enc = crate::ternary_encode_spec(m);
    let e = wsub(v, enc);
    crate::lemma_wadd_cancel(enc, v);
    assert(v == wadd(enc, e));
    if m == 0 {
        assert(wadd(0, e) == e) by {
            vstd::arithmetic::div_mod::lemma_small_mod(e as nat, q as nat);
        }
        if signed(e) >= 0 {
            assert(v <= crate::TERNARY_SIXTH);
        } else {
            assert(v > crate::TERNARY_HALF + 2 * crate::TERNARY_SIXTH);
        }
    } else {
        crate::lemma_signed_wadd(enc, e);
        if m == 1 {
            assert(crate::TERNARY_SIXTH < v <= crate::TERNARY_HALF);
        } else {
            assert(crate::TERNARY_HALF < v <= crate::TERNARY_HALF + 2 * crate::TERNARY_SIXTH);
        }
    }
}

/// Round trip under the secret key: for every binary plaintext, every key,
/// and every mask and noise draw within the bound, decrypting an encryption
/// of the plaintext and decoding yields the plaintext back.
pub proof fn lemma_binary_round_trip(pt: Seq<Scalar>, phase: Seq<Scalar>, bound: int)
    requires
        is_binary_poly(pt),
        close_to(phase, crate::binary_encode_seq(pt), bound),
        0 <= bound <= 0x3fff_ffff_ffff_fffd,
    ensures
        crate::binary_decode_seq(phase) == pt,
{
    assert forall|i: int| 0 <= i < pt.len() implies crate::binary_decode_seq(phase)[i] == pt[i] by {
        assert(sabs(wsub(phase[i], crate::wmul(pt[i], crate::BINARY_DELTA))) <= bound);
        lemma_binary_decode_near(pt[i], phase[i]);
    }
    assert(crate::binary_decode_seq(phase) =~= pt);
}

/// Round trip for the ternary encoding, in the same form.
pub proof fn lemma_ternary_round_trip(pt: Seq<Scalar>, phase: Seq<Scalar>, bound: int)
    requires
        forall|i: int| 0 <= i < pt.len() ==> pt[i] == 0 || pt[i] == 1 || pt[i] == Scalar::MAX,
        close_to(phase, crate::ternary_encode_seq(pt), bound),
        0 <= bound <= 0x1000_0000_0000_0000,
    ensures
        crate::ternary_decode_seq(phase) == pt,
{
    assert forall|i: int| 0 <= i < pt.len() implies crate::ternary_decode_seq(phase)[i]
        == pt[i] by {
        assert(sabs(wsub(phase[i], crate::ternary_encode_spec(pt[i]))) <= bound);
        lemma_ternary_decode_near(pt[i], phase[i]);
    }
    assert(crate::ternary_decode_seq(phase) =~= pt);
}

/// Homomorphic addition: the phase of the componentwise sum of two RLWE
/// ciphertexts is the wrapping sum of their phases, so decrypting `c1 + c2`
/// gives `decrypt(c1) + decrypt(c2)` in `Z_q`.
pub proof fn lemma_add_homomorphic(
    mask1: Seq<Scalar>,
    body1: Seq<Scalar>,
    mask2: Seq<Scalar>,
    body2: Seq<Scalar>,
    s: Seq<Scalar>,
)
    requires
        mask1.len() == s.len(),
        mask2.len() == s.len(),
        body1.len() == s.len(),
        body2.len() == s.len(),
        s.len() >= 1,
    ensures
        rlwe_phase(seq_wadd(mask1, mask2), seq_wadd(body1, body2), s) == seq_wadd(
            rlwe_phase(mask1, body1, s),
            rlwe_phase(mask2, body2, s),
        ),
{
    let n = s.len() as int;
    lemma_ncmul_linear(mask1, mask2, s);
    assert forall|i: int| 0 <= i < n implies rlwe_phase(
        seq_wadd(mask1, mask2),
        seq_wadd(body1, body2),
        s,
    )[i] == seq_wadd(rlwe_phase(mask1, body1, s), rlwe_phase(mask2, body2, s))[i] by {
        let x1 = ncmul(mask1, s)[i];
        let x2 = ncmul(mask2, s)[i];
        assert(ncmul(seq_wadd(mask1, mask2), s)[i] == crate::wadd(x1, x2));
        crate::lemma_wadd_wsub_exchange(body1[i], body2[i], x1, x2);
    }
    assert(rlwe_phase(seq_wadd(mask1, mask2), seq_wadd(body1, body2), s) =~= seq_wadd(
        rlwe_phase(mask1, body1, s),
        rlwe_phase(mask2, body2, s),
    ));
}

/// A shared-mask RLWE public key: a list of ciphertexts whose masks all
/// parties share; each body is a sum of per-party encryptions of zero.
pub struct RLWEPublicKey {
    pub rows: Vec<RLWECiphertext>,
}

/// Every row of the key is an encryption of zero under `s`, with noise of
/// magnitude at most `bound`.
pub open spec fn pk_rows_encrypt_zero(rows: Seq<RLWECiphertext>, s: Seq<Scalar>, bound: int) -> bool {
    forall|r: int|
        0 <= r < rows.len() ==> close_to(
            rlwe_phase(rows[r].mask@, rows[r].body@, s),
            zero_seq(s.len()),
            bound,
        )
}

/// The wrapping sum of the masks of the rows selected by the binary vector
/// `sel`, over the first `j` rows.
pub open spec fn pk_partial_mask(
    rows: Seq<RLWECiphertext>,
    sel: Seq<Scalar>,
    j: int,
    n: nat,
) -> Seq<Scalar>
    decreases j,
{
    if j <= 0 {
        zero_seq(n)
    } else if sel[j - 1] == 1 {
        seq_wadd(pk_partial_mask(rows, sel, j - 1, n), rows[j - 1].mask@)
    } else {
        pk_partial_mask(rows, sel, j - 1, n)
    }
}

/// The matching sum of the selected bodies.
pub open spec fn pk_partial_body(
    rows: Seq<RLWECiphertext>,
    sel: Seq<Scalar>,
    j: int,
    n: nat,
) -> Seq<Scalar>
    decreases j,
{
    if j <= 0 {
        zero_seq(n)
    } else if sel[j - 1] == 1 {
        seq_wadd(pk_partial_body(rows, sel, j - 1, n), rows[j - 1].body@)
    } else {
        pk_partial_body(rows, sel, j - 1, n)
    }
}

impl RLWEPublicKey {
    /// All rows allocated at degree `n`.
    pub open spec fn wf(&self, n: nat) -> bool {
        forall|r: int| 0 <= r < self.rows@.len() ==> self.rows@[r].wf(n)
    }

    /// `m` zero rows at the given degree.
    pub fn allocate(poly_size: usize, m: usize) -> (r: RLWEPublicKey)
        ensures
            r.rows@.len() == m,
            r.wf(poly_size as nat),
            forall|i: int|
                0 <= i < m ==> is_zero_poly(r.rows@[i].mask@) && is_zero_poly(r.rows@[i].body@),
    {
        let mut rows: Vec<RLWECiphertext> = Vec::new();
        let mut i: usize = 0;
        while i < m
            invariant
                i <= m,
                rows@.len() == i,
                forall|j: int| 0 <= j < i ==> rows@[j].wf(poly_size as nat),
                forall|j: int|
                    0 <= j < i ==> is_zero_poly(rows@[j].mask@) && is_zero_poly(rows@[j].body@),
            decreases m - i,
        {
            rows.push(RLWECiphertext::allocate(poly_size));
            i = i + 1;
        }
        RLWEPublicKey { rows }
    }

    /// The number of rows.
    pub fn get_size(&self) -> (r: usize)
        ensures
            r == self.rows@.len(),
    {
        self.rows.len()
    }

    /// The number of mask polynomials in a row: one.
    pub fn get_numberof_mask(&self) -> (r: usize)
        ensures
            r == 1,
    {
        1
    }

    /// Copy the shared masks of the global key into this key; bodies stay.
    pub fn update_with_global_mask(&mut self, global_pk: &RLWEPublicKey, ctx: &Context)
        requires
            old(self).rows@.len() == ctx.m,
            global_pk.rows@.len() == ctx.m,
        ensures
            final(self).rows@.len() == ctx.m,
            forall|i: int|
                0 <= i < ctx.m ==> final(self).rows@[i].mask@ == global_pk.rows@[i].mask@,
            forall|i: int| 0 <= i < ctx.m ==> final(self).rows@[i].body@ == old(self).rows@[i].body@,
    {
        let m = ctx.m;
        let mut i: usize = 0;
        while i < m
            invariant
                m == ctx.m,
                self.rows@.len() == m,
                global_pk.rows@.len() == m,
                i <= m,
                forall|j: int| 0 <= j < i ==> self.rows@[j].mask@ == global_pk.rows@[j].mask@,
                forall|j: int| 0 <= j < i ==> self.rows@[j].body@ == old(self).rows@[j].body@,
                forall|j: int|
                    i <= j < m ==> self.rows@[j].mask@ == old(self).rows@[j].mask@
                        && self.rows@[j].body@ == old(self).rows@[j].body@,
            decreases m - i,
        {
            let new_mask = global_pk.rows[i].mask.clone();
            proof {
                assert(new_mask@ =~= global_pk.rows@[i as int].mask@);
            }
            let row = &mut self.rows[i];
            row.mask = new_mask;
            i = i + 1;
        }
    }

    /// Add the bodies of another key share into this key's bodies.
    pub fn update_body_with_pk(&mut self, pk: &RLWEPublicKey, ctx: &Context)
        requires
            old(self).rows@.len() == ctx.m,
            pk.rows@.len() == ctx.m,
            forall|i: int|
                0 <= i < ctx.m ==> old(self).rows@[i].body@.len() == pk.rows@[i].body@.len(),
        ensures
            final(self).rows@.len() == ctx.m,
            forall|i: int|
                0 <= i < ctx.m ==> final(self).rows@[i].body@ == seq_wadd(
                    old(self).rows@[i].body@,
                    pk.rows@[i].body@,
                ),
            forall|i: int| 0 <= i < ctx.m ==> final(self).rows@[i].mask@ == old(self).rows@[i].mask@,
    {
        let m = ctx.m;
        let mut i: usize = 0;
        while i < m
            invariant
                m == ctx.m,
                self.rows@.len() == m,
                pk.rows@.len() == m,
                forall|j: int| 0 <= j < m ==> old(self).rows@[j].body@.len() == pk.rows@[j].body@.len(),
                i <= m,
                forall|j: int|
                    0 <= j < i ==> self.rows@[j].body@ == seq_wadd(
                        old(self).rows@[j].body@,
                        pk.rows@[j].body@,
                    ),
                forall|j: int| 0 <= j < i ==> self.rows@[j].mask@ == old(self).rows@[j].mask@,
                forall|j: int|
                    i <= j < m ==> self.rows@[j].mask@ == old(self).rows@[j].mask@
                        && self.rows@[j].body@ == old(self).rows@[j].body@,
            decreases m - i,
        {
            let other = &pk.rows[i].body;
            let row = &mut self.rows[i];
            update_with_wrapping_add(&mut row.body, other);
            i = i + 1;
        }
    }

    /// True when the first `m` masks of the two keys agree.
    pub fn compare_mask(&self, pk: &RLWEPublicKey, m: usize) -> (r: bool)
        requires
            m <= self.rows@.len(),
            m <= pk.rows@.len(),
        ensures
            r == (forall|i: int| 0 <= i < m ==> self.rows@[i].mask@ =~= pk.rows@[i].mask@),
    {
        let mut i: usize = 0;
        let mut ok = true;
        while i < m
            invariant
                m <= self.rows@.len(),
                m <= pk.rows@.len(),
                i <= m,
                ok == (forall|j: int| 0 <= j < i ==> self.rows@[j].mask@ =~= pk.rows@[j].mask@),
            decreases m - i,
        {
            let same = eq_vec(&self.rows[i].mask, &pk.rows[i].mask);
            ok = ok && same;
            i = i + 1;
        }
        ok
    }

    /// Encrypt `pt` under the public key: draw a fresh binary selector, sum
    /// the selected rows into the ciphertext, and add `pt` to the body.
    pub fn encrypt_rlwe(
        &self,
        encrypted: &mut RLWECiphertext,
        pt: &Vec<Scalar>,
        generator: &mut crate::rng::SecretRandomGenerator,
        m: usize,
    )
        requires
            m == self.rows@.len(),
            m >= 1,
            pt@.len() >= 1,
            self.wf(pt@.len()),
            old(encrypted).wf(pt@.len()),
            is_zero_poly(old(encrypted).mask@),
            is_zero_poly(old(encrypted).body@),
        ensures
            final(encrypted).wf(pt@.len()),
            exists|sel: Seq<Scalar>|
                {
                    &&& sel.len() == m
                    &&& is_binary_poly(sel)
                    &&& final(encrypted).mask@ == pk_partial_mask(
                        self.rows@,
                        sel,
                        m as int,
                        pt@.len(),
                    )
                    &&& final(encrypted).body@ == seq_wadd(
                        pk_partial_body(self.rows@, sel, m as int, pt@.len()),
                        pt@,
                    )
                },
    {
        let ghost n = pt@.len();
        proof {
            assert(encrypted.mask@ =~= zero_seq(n));
            assert(encrypted.body@ =~= zero_seq(n));
        }
        if m == 1 {
            proof {
                assert((#[trigger] self.rows@[0]).wf(n));
            }
            let row = &self.rows[0];
            encrypted.update_with_add(row);
            update_with_wrapping_add(&mut encrypted.body, pt);
            proof {
                let sel = seq![1 as Scalar];
                assert(sel.len() == m);
                assert(is_binary_poly(sel)) by {
                    assert(sel[0] == 1);
                }
                assert(pk_partial_mask(self.rows@, sel, 0, n) =~= zero_seq(n));
                assert(pk_partial_body(self.rows@, sel, 0, n) =~= zero_seq(n));
                assert(encrypted.mask@ =~= seq_wadd(zero_seq(n), self.rows@[0].mask@));
                assert(encrypted.mask@ == pk_partial_mask(self.rows@, sel, 1, n));
                assert(encrypted.body@ == seq_wadd(pk_partial_body(self.rows@, sel, 1, n), pt@))
                    by {
                    assert(pk_partial_body(self.rows@, sel, 1, n) == seq_wadd(
                        zero_seq(n),
                        self.rows@[0].body@,
                    ));
                }
            }
            return ;
        }
        let sel = generator.gen_binary_vec(m);
        let mut i: usize = 0;
        while i < m
            invariant
                m == self.rows@.len(),
                sel@.len() == m,
                is_binary_poly(sel@),
                self.wf(n),
                n == pt@.len(),
                n >= 1,
                i <= m,
                encrypted.wf(n),
                encrypted.mask@ == pk_partial_mask(self.rows@, sel@, i as int, n),
                encrypted.body@ == pk_partial_body(self.rows@, sel@, i as int, n),
            decreases m - i,
        {
            if sel[i] == 1 {
                let row = &self.rows[i];
                encrypted.update_with_add(row);
            }
            i = i + 1;
        }
        update_with_wrapping_add(&mut encrypted.body, pt);
    }
}

/// The two mask vectors hold the same scalars.
pub(crate) fn eq_vec(a: &Vec<Scalar>, b: &Vec<Scalar>) -> (r: bool)
    ensures
        r == (a@ =~= b@),
{
    if a.len() != b.len() {
        return false;
    }
    let n = a.len();
    let mut i: usize = 0;
    while i < n
        invariant
            n == a@.len(),
            n == b@.len(),
            i <= n,
            forall|j: int| 0 <= j < i ==> a@[j] == b@[j],
        decreases n - i,
    {
        if a[i] != b[i] {
            return false;
        }
        i = i + 1;
    }
    true
}


/// Selected-row sums keep the polynomial degree.
proof fn lemma_pk_partial_len(rows: Seq<RLWECiphertext>, sel: Seq<Scalar>, j: int, n: nat)
    requires
        0 <= j,
    ensures
        pk_partial_mask(rows, sel, j, n).len() == n,
        pk_partial_body(rows, sel, j, n).len() == n,
    decreases j,
{
    if j > 0 {
        lemma_pk_partial_len(rows, sel, j - 1, n);
    }
}

/// The phase of a selected-row sum stays within `j * bound` of zero,
/// whatever the selector picks.
proof fn lemma_pk_partial_phase(
    rows: Seq<RLWECiphertext>,
    sel: Seq<Scalar>,
    s: Seq<Scalar>,
    j: int,
    bound: int,
)
    requires
        s.len() >= 1,
        sel.len() >= j,
        rows.len() >= j,
        0 <= j,
        0 <= bound,
        is_binary_poly(sel),
        forall|r: int| 0 <= r < rows.len() ==> rows[r].wf(s.len()),
        pk_rows_encrypt_zero(rows, s, bound),
        j * bound < 0x4000_0000_0000_0000,
    ensures
        close_to(
            rlwe_phase(
                pk_partial_mask(rows, sel, j, s.len()),
                pk_partial_body(rows, sel, j, s.len()),
                s,
            ),
            zero_seq(s.len()),
            j * bound,
        ),
    decreases j,
{
    let n = s.len();
    if j == 0 {
        lemma_ncmul_zero(s, n);
        assert forall|i: int| 0 <= i < n implies sabs(
            wsub(rlwe_phase(zero_seq(n), zero_seq(n), s)[i], zero_seq(n)[i]),
        ) <= 0 by {
            assert(rlwe_phase(zero_seq(n), zero_seq(n), s)[i] == wsub(0, 0));
            crate::lemma_wsub_zero(0);
            crate::lemma_wsub_zero(wsub(0, 0));
        }
    } else {
        vstd::arithmetic::mul::lemma_mul_inequality(j - 1, j, bound);
        lemma_pk_partial_phase(rows, sel, s, j - 1, bound);
        lemma_pk_partial_len(rows, sel, j - 1, n);
        lemma_pk_partial_len(rows, sel, j, n);
        vstd::arithmetic::mul::lemma_mul_is_distributive_add(bound, j - 1, 1);
        assert(j * bound == (j - 1) * bound + bound) by {
            vstd::arithmetic::mul::lemma_mul_is_commutative(bound, j);
            vstd::arithmetic::mul::lemma_mul_is_commutative(bound, j - 1);
        }
        vstd::arithmetic::mul::lemma_mul_inequality(0, j - 1, bound);
        let prev_ph = rlwe_phase(
            pk_partial_mask(rows, sel, j - 1, n),
            pk_partial_body(rows, sel, j - 1, n),
            s,
        );
        let cur_ph = rlwe_phase(
            pk_partial_mask(rows, sel, j, n),
            pk_partial_body(rows, sel, j, n),
            s,
        );
        if sel[j - 1] == 1 {
            let pm = pk_partial_mask(rows, sel, j - 1, n);
            let pb = pk_partial_body(rows, sel, j - 1, n);
            lemma_add_homomorphic(pm, pb, rows[j - 1].mask@, rows[j - 1].body@, s);
            let ph2 = rlwe_phase(rows[j - 1].mask@, rows[j - 1].body@, s);
            assert forall|i: int| 0 <= i < n implies sabs(
                wsub(#[trigger] cur_ph[i], zero_seq(n)[i]),
            ) <= j * bound by {
                assert(sabs(wsub(prev_ph[i], zero_seq(n)[i])) <= (j - 1) * bound);
                assert(sabs(wsub(ph2[i], zero_seq(n)[i])) <= bound);
                crate::lemma_wsub_zero(prev_ph[i]);
                crate::lemma_wsub_zero(ph2[i]);
                crate::lemma_sabs_wadd(prev_ph[i], ph2[i]);
                assert(cur_ph[i] == crate::wadd(prev_ph[i], ph2[i]));
                crate::lemma_wsub_zero(crate::wadd(prev_ph[i], ph2[i]));
            }
        } else {
            assert(cur_ph == prev_ph);
            assert forall|i: int| 0 <= i < n implies sabs(
                wsub(#[trigger] cur_ph[i], zero_seq(n)[i]),
            ) <= j * bound by {
                assert(sabs(wsub(prev_ph[i], zero_seq(n)[i])) <= (j - 1) * bound);
            }
        }
    }
}

/// Round trip under the shared-mask public key: for every binary selector
/// the key encryption could have drawn, and every binary plaintext,
/// decrypting and decoding gives the plaintext back, as long as each key row
/// encrypts zero with noise within `bound` and `m * bound` stays inside the
/// decoding window.
pub proof fn lemma_pk_binary_round_trip(
    rows: Seq<RLWECiphertext>,
    sel: Seq<Scalar>,
    pt: Seq<Scalar>,
    s: Seq<Scalar>,
    bound: int,
)
    requires
        s.len() >= 1,
        pt.len() == s.len(),
        sel.len() == rows.len(),
        is_binary_poly(sel),
        is_binary_poly(pt),
        forall|r: int| 0 <= r < rows.len() ==> rows[r].wf(s.len()),
        pk_rows_encrypt_zero(rows, s, bound),
        0 <= bound,
        rows.len() * bound <= 0x3fff_ffff_ffff_fffd,
    ensures
        crate::binary_decode_seq(
            rlwe_phase(
                pk_partial_mask(rows, sel, rows.len() as int, s.len()),
                seq_wadd(
                    pk_partial_body(rows, sel, rows.len() as int, s.len()),
                    crate::binary_encode_seq(pt),
                ),
                s,
            ),
        ) == pt,
{
    let n = s.len();
    let m = rows.len() as int;
    lemma_pk_partial_phase(rows, sel, s, m, bound);
    let pm = pk_partial_mask(rows, sel, m, n);
    let pb = pk_partial_body(rows, sel, m, n);
    let ph = rlwe_phase(pm, pb, s);
    let enc = crate::binary_encode_seq(pt);
    let full = rlwe_phase(pm, seq_wadd(pb, enc), s);
    assert forall|i: int| 0 <= i < n implies sabs(wsub(full[i], enc[i])) <= m * bound by {
        crate::lemma_wadd_then_wsub(pb[i], enc[i], ncmul(pm, s)[i]);
        assert(full[i] == crate::wadd(ph[i], enc[i]));
        crate::lemma_wsub_zero(ph[i]);
        crate::lemma_wadd_comm(ph[i], enc[i]);
        crate::lemma_wsub_cancel(enc[i], ph[i]);
        assert(wsub(full[i], enc[i]) == ph[i]);
    }
    lemma_binary_round_trip(pt, full, m * bound);
}

impl RLWESecretKey {
    /// Fill each row's mask of a public key with fresh uniform polynomials;
    /// bodies are left alone.
    pub fn generate_mask(&self, encrypted: &mut RLWEPublicKey, ctx: &mut Context)
        requires
            old(encrypted).rows@.len() == old(ctx).m,
            old(encrypted).wf(old(ctx).poly_size as nat),
            old(ctx).wf(),
        ensures
            final(encrypted).rows@.len() == old(ctx).m,
            final(encrypted).wf(old(ctx).poly_size as nat),
            forall|i: int|
                0 <= i < old(ctx).m ==> final(encrypted).rows@[i].body@ == old(
                    encrypted,
                ).rows@[i].body@,
            ctx_params_unchanged(old(ctx), final(ctx)),
    {
        let m = ctx.m;
        let n = ctx.poly_size;
        let mut i: usize = 0;
        while i < m
            invariant
                m == ctx.m,
                n == ctx.poly_size,
                ctx_params_unchanged(old(ctx), ctx),
                encrypted.rows@.len() == m,
                encrypted.wf(n as nat),
                i <= m,
                forall|j: int| 0 <= j < m ==> encrypted.rows@[j].body@ == old(encrypted).rows@[j].body@,
            decreases m - i,
        {
            let mask = ctx.encryption_generator.gen_uniform_vec(n);
            let row = &mut encrypted.rows[i];
            row.mask = mask;
            i = i + 1;
        }
    }

    /// Fill the bodies of a public key whose masks are already set: each row
    /// becomes an encryption of zero under this key, over its present mask.
    pub fn fill_rlwe_pk(
        &self,
        encrypted: &mut RLWEPublicKey,
        noise_bits: u64,
        generator: &mut crate::rng::EncryptionRandomGenerator,
        m: usize,
    )
        requires
            old(encrypted).rows@.len() == m,
            old(encrypted).wf(self.poly@.len()),
            1 <= self.poly@.len() <= 0x1000_0000,
            noise_bits <= 60,
        ensures
            final(encrypted).rows@.len() == m,
            final(encrypted).wf(self.poly@.len()),
            forall|i: int|
                0 <= i < m ==> final(encrypted).rows@[i].mask@ == old(encrypted).rows@[i].mask@,
            pk_rows_encrypt_zero(final(encrypted).rows@, self.poly@, (1u64 << noise_bits) as int),
    {
        let ghost n = self.poly@.len();
        let mlen = m;
        let mut i: usize = 0;
        while i < mlen
            invariant
                encrypted.rows@.len() == mlen,
                encrypted.wf(n),
                1 <= self.poly@.len() <= 0x1000_0000,
                n == self.poly@.len(),
                noise_bits <= 60,
                i <= mlen,
                forall|j: int| 0 <= j < mlen ==> encrypted.rows@[j].mask@ == old(encrypted).rows@[j].mask@,
                forall|j: int|
                    0 <= j < i ==> close_to(
                        rlwe_phase(encrypted.rows@[j].mask@, encrypted.rows@[j].body@, self.poly@),
                        zero_seq(n),
                        (1u64 << noise_bits) as int,
                    ),
            decreases mlen - i,
        {
            let prod = ncmul_exec(&encrypted.rows[i].mask, &self.poly);
            let e = generator.gen_noise_vec(self.poly.len(), noise_bits);
            let mut body = prod.clone();
            proof {
                assert(body@ =~= prod@);
            }
            update_with_wrapping_add(&mut body, &e);
            let ghost bodyv = body@;
            let row = &mut encrypted.rows[i];
            row.body = body;
            proof {
                let mk = encrypted.rows@[i as int].mask@;
                let ph = rlwe_phase(mk, bodyv, self.poly@);
                assert forall|t: int| 0 <= t < n implies sabs(wsub(ph[t], zero_seq(n)[t])) <= (1u64
                    << noise_bits) as int by {
                    let mt = ncmul(mk, self.poly@)[t];
                    assert(bodyv[t] == wadd(mt, e@[t]));
                    crate::lemma_wsub_cancel(mt, e@[t]);
                    assert(ph[t] == e@[t]);
                    crate::lemma_wsub_zero(e@[t]);
                }
            }
            i = i + 1;
        }
    }
}

/// The signed magnitude of a scalar, as a machine word.
pub fn sabs_exec(x: Scalar) -> (r: Scalar)
    ensures
        r as int == sabs(x),
{
    if x >= 0x8000_0000_0000_0000 {
        0u64.wrapping_sub(x)
    } else {
        x
    }
}

/// Largest signed magnitude of the componentwise wrapping difference of two
/// sequences: the measured noise between a decryption and the expected
/// encoding.
pub open spec fn max_noise(a: Seq<Scalar>, b: Seq<Scalar>, j: int) -> int
    decreases j,
{
    if j <= 0 {
        0
    } else {
        let cur = sabs(wsub(a[j - 1], b[j - 1]));
        let rest = max_noise(a, b, j - 1);
        if cur > rest {
            cur
        } else {
            rest
        }
    }
}

/// Measure the worst-case noise between two coefficient vectors.
pub fn measure_noise(a: &Vec<Scalar>, b: &Vec<Scalar>) -> (r: Scalar)
    requires
        a@.len() == b@.len(),
    ensures
        r as int == max_noise(a@, b@, a@.len() as int),
{
    let n = a.len();
    let mut best: Scalar = 0;
    let mut i: usize = 0;
    while i < n
        invariant
            n == a@.len(),
            n == b@.len(),
            i <= n,
            best as int == max_noise(a@, b@, i as int),
        decreases n - i,
    {
        let d = a[i].wrapping_sub(b[i]);
        let z = sabs_exec(d);
        if z > best {
            best = z;
        }
        i = i + 1;
    }
    best
}

/// Decrypt `ct` and report the worst-case noise against the expected encoded
/// plaintext `Delta * m`.
pub fn compute_noise(
    sk: &RLWESecretKey,
    ct: &RLWECiphertext,
    encoded_ptxt: &Vec<Scalar>,
) -> (r: Scalar)
    requires
        1 <= sk.poly@.len() <= 0x1000_0000,
        ct.wf(sk.poly@.len()),
        encoded_ptxt@.len() == sk.poly@.len(),
    ensures
        r as int == max_noise(
            rlwe_phase(ct.mask@, ct.body@, sk.poly@),
            encoded_ptxt@,
            sk.poly@.len() as int,
        ),
{
    let mut pt = poly_zero(encoded_ptxt.len());
    sk.decrypt_rlwe(&mut pt, ct);
    measure_noise(&pt, encoded_ptxt)
}

/// As [`compute_noise`]; decryption is the same wrapping subtraction.
pub fn compute_wrapping_noise(
    sk: &RLWESecretKey,
    ct: &RLWECiphertext,
    encoded_ptxt: &Vec<Scalar>,
) -> (r: Scalar)
    requires
        1 <= sk.poly@.len() <= 0x1000_0000,
        ct.wf(sk.poly@.len()),
        encoded_ptxt@.len() == sk.poly@.len(),
    ensures
        r as int == max_noise(
            rlwe_phase(ct.mask@, ct.body@, sk.poly@),
            encoded_ptxt@,
            sk.poly@.len() as int,
        ),
{
    compute_noise(sk, ct, encoded_ptxt)
}

/// Noise of a ciphertext against a binary plaintext (encoded on the fly).
pub fn compute_noise_binary(
    sk: &RLWESecretKey,
    ct: &RLWECiphertext,
    ptxt: &Vec<Scalar>,
) -> (r: Scalar)
    requires
        1 <= sk.poly@.len() <= 0x1000_0000,
        ct.wf(sk.poly@.len()),
        ptxt@.len() == sk.poly@.len(),
        is_binary_poly(ptxt@),
    ensures
        r as int == max_noise(
            rlwe_phase(ct.mask@, ct.body@, sk.poly@),
            crate::binary_encode_seq(ptxt@),
            sk.poly@.len() as int,
        ),
{
    let mut tmp = ptxt.clone();
    proof {
        assert(tmp@ =~= ptxt@);
    }
    crate::poly_binary_encode(&mut tmp);
    compute_noise(sk, ct, &tmp)
}

/// Noise of a ciphertext against a ternary plaintext (encoded on the fly).
pub fn compute_noise_ternary(
    sk: &RLWESecretKey,
    ct: &RLWECiphertext,
    ptxt: &Vec<Scalar>,
) -> (r: Scalar)
    requires
        1 <= sk.poly@.len() <= 0x1000_0000,
        ct.wf(sk.poly@.len()),
        ptxt@.len() == sk.poly@.len(),
        forall|i: int|
            0 <= i < ptxt@.len() ==> ptxt@[i] == 0 || ptxt@[i] == 1 || ptxt@[i] == Scalar::MAX,
    ensures
        r as int == max_noise(
            rlwe_phase(ct.mask@, ct.body@, sk.poly@),
            crate::ternary_encode_seq(ptxt@),
            sk.poly@.len() as int,
        ),
{
    let mut tmp = ptxt.clone();
    proof {
        assert(tmp@ =~= ptxt@);
    }
    crate::poly_ternary_encode(&mut tmp);
    compute_noise(sk, ct, &tmp)
}

/// Base-2 logarithm of a power of two.
pub open spec fn lg2(n: int) -> nat
    decreases n,
{
    if n <= 1 {
        0
    } else {
        1 + lg2(n / 2)
    }
}

/// On powers of two, `pow2` inverts `lg2`.
pub proof fn lemma_lg2_pow2(n: int)
    requires
        crate::is_pow2(n),
    ensures
        vstd::arithmetic::power2::pow2(lg2(n)) == n,
    decreases n,
{
    if n == 1 {
        vstd::arithmetic::power2::lemma2_to64();
    } else {
        lemma_lg2_pow2(n / 2);
        vstd::arithmetic::power2::lemma_pow2_unfold(lg2(n));
    }
}

/// Compute the base-2 logarithm of a power of two.
pub fn log2_exec(n: usize) -> (r: u64)
    requires
        crate::is_pow2(n as int),
        n <= 0x1000_0000,
    ensures
        r == lg2(n as int),
        r <= 28,
{
    let mut v: usize = n;
    let mut r: u64 = 0;
    proof {
        lemma_lg2_pow2(n as int);
        if lg2(n as int) > 28 {
            vstd::arithmetic::power2::lemma2_to64();
            vstd::arithmetic::power2::lemma_pow2_strictly_increases(28, lg2(n as int));
            vstd::arithmetic::power2::lemma2_to64_rest();
            assert(false);
        }
    }
    while v > 1
        invariant
            crate::is_pow2(v as int),
            r == lg2(n as int) - lg2(v as int),
            lg2(v as int) <= lg2(n as int),
            lg2(n as int) <= 28,
        decreases v,
    {
        v = v / 2;
        r = r + 1;
    }
    proof {
        assert(lg2(1) == 0);
    }
    r
}

/// The modulus switch `round(x * 2N / q)` expressed over the log of the
/// polynomial degree: round-half-up division by `q / 2N = 2^(63 - lg N)`.
pub open spec fn mod_switch(x: Scalar, lg: nat) -> int
    recommends
        lg <= 60,
{
    crate::round_div_pow2(x, (63 - lg) as nat)
}

/// Switch an LWE component from `Z_q` to `Z_2N`: the monomial degree that the
/// accumulator is rotated by. Rounds half up; the result is the unreduced
/// round, at most `2N` (an input near `q` rounds to `2N` itself). `X^2N = 1`
/// in the ring, so every consumer reduces degrees modulo `2N`, and the
/// unreduced form keeps the switch monotone over the whole of `Z_q`.
pub fn pbs_modulus_switch(input: Scalar, poly_size: usize) -> (r: usize)
    requires
        crate::is_pow2(poly_size as int),
        poly_size <= 0x1000_0000,
    ensures
        r as int == mod_switch(input, lg2(poly_size as int)),
        r <= 2 * poly_size,
{
    let lg = log2_exec(poly_size);
    let shift: u64 = 63 - lg;
    let r = crate::round_shift(input, shift);
    proof {
        let lgn = lg2(poly_size as int);
        let h = vstd::arithmetic::power2::pow2((shift - 1) as nat) as int;
        let d = vstd::arithmetic::power2::pow2(shift as nat) as int;
        vstd::arithmetic::power2::lemma_pow2_pos((shift - 1) as nat);
        vstd::arithmetic::power2::lemma_pow2_pos(shift as nat);
        // r <= 2N: since input + h < q and q == 2N * d
        lemma_lg2_pow2(poly_size as int);
        vstd::arithmetic::power2::lemma_pow2_adds(lgn, (shift - 1) as nat);
        vstd::arithmetic::power2::lemma_pow2_adds(lgn + 1, shift as nat);
        vstd::arithmetic::power2::lemma_pow2_unfold(lgn + 1);
        assert(vstd::arithmetic::power2::pow2((lgn + 1 + shift) as nat) == 2 * poly_size * d);
        assert((lgn + 1 + shift) as nat == 64nat);
        assert(vstd::arithmetic::power2::pow2(64) == 0x1_0000_0000_0000_0000) by {
            vstd::arithmetic::power2::lemma2_to64_rest();
        }
        assert(input + h < (2 * poly_size + 1) * d) by {
            vstd::arithmetic::power2::lemma_pow2_adds((shift - 1) as nat, 1);
            vstd::arithmetic::power2::lemma_pow2_unfold(shift as nat);
            assert(2 * h == d);
            vstd::arithmetic::mul::lemma_mul_is_distributive_add_other_way(
                d,
                2 * poly_size as int,
                1,
            );
        }
        vstd::arithmetic::div_mod::lemma_multiply_divide_lt(input as int + h, d, 2 * poly_size + 1);
    }
    let out = r as usize;
    out
}

/// The modulus switch of zero is zero.
pub proof fn lemma_mod_switch_zero(lg: nat)
    requires
        lg <= 60,
    ensures
        mod_switch(0, lg) == 0,
{
    let s = (63 - lg) as nat;
    vstd::arithmetic::power2::lemma_pow2_pos(s);
    vstd::arithmetic::power2::lemma_pow2_pos((s - 1) as nat);
    vstd::arithmetic::power2::lemma_pow2_strictly_increases((s - 1) as nat, s);
    vstd::arithmetic::div_mod::lemma_basic_div_specific_divisor(
        vstd::arithmetic::power2::pow2(s) as int,
    );
}

/// The modulus switch is monotone non-decreasing.
pub proof fn lemma_mod_switch_monotone(x: Scalar, y: Scalar, lg: nat)
    requires
        lg <= 60,
        x <= y,
    ensures
        mod_switch(x, lg) <= mod_switch(y, lg),
{
    let s = (63 - lg) as nat;
    vstd::arithmetic::power2::lemma_pow2_pos(s);
    vstd::arithmetic::div_mod::lemma_div_is_ordered(
        x as int + vstd::arithmetic::power2::pow2((s - 1) as nat) as int,
        y as int + vstd::arithmetic::power2::pow2((s - 1) as nat) as int,
        vstd::arithmetic::power2::pow2(s) as int,
    );
}

/// Scaled roots map exactly: a multiple `j * q/(2N)` of the q-th root step
/// switches to `j`, the matching multiple of the 2N-th root step.
pub proof fn lemma_mod_switch_root(j: Scalar, lg: nat)
    requires
        lg <= 60,
        j < vstd::arithmetic::power2::pow2((lg + 1) as nat),
    ensures
        mod_switch(
            (j * vstd::arithmetic::power2::pow2((63 - lg) as nat)) as Scalar,
            lg,
        ) == j,
{
    let s = (63 - lg) as nat;
    let d = vstd::arithmetic::power2::pow2(s) as int;
    let h = vstd::arithmetic::power2::pow2((s - 1) as nat) as int;
    vstd::arithmetic::power2::lemma_pow2_pos(s);
    vstd::arithmetic::power2::lemma_pow2_pos((s - 1) as nat);
    vstd::arithmetic::power2::lemma_pow2_adds((s - 1) as nat, 1);
    vstd::arithmetic::power2::lemma_pow2_unfold(s);
    assert(2 * h == d);
    // j * d fits in a u64: j < 2^(lg+1) and d == 2^(63-lg)
    vstd::arithmetic::power2::lemma_pow2_adds((lg + 1) as nat, s);
    assert((lg + 1 + s) as nat == 64nat);
    vstd::arithmetic::power2::lemma_pow2_strictly_increases(0, (lg + 1) as nat);
    vstd::arithmetic::mul::lemma_mul_strict_inequality(
        j as int,
        vstd::arithmetic::power2::pow2((lg + 1) as nat) as int,
        d,
    );
    assert(vstd::arithmetic::power2::pow2(64) == 0x1_0000_0000_0000_0000) by {
        vstd::arithmetic::power2::lemma2_to64_rest();
    }
    let x = (j * d) as Scalar;
    vstd::arithmetic::div_mod::lemma_fundamental_div_mod_converse(x + h, d, j as int, h);
}

} // verus!
