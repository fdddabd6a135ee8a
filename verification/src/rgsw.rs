//! RGSW ciphertexts: gadget-decomposed matrices of RLWE rows, the signed
//! gadget decomposition itself, and the external and internal homomorphic
//! products.
use vstd::prelude::*;
use crate::{Scalar, spec_q, wadd, wsub, sabs, Context, ctx_params_unchanged, gadget_delta};
use crate::poly::{
    seq_wadd, seq_wsub, seq_wscale, seq_wneg, ncmul, ncmul_exec, is_zero_poly, poly_zero,
    update_with_wrapping_add, update_with_wrapping_sub, update_with_product_monomial, mono_mul,
    zero_seq, mul_const,
};
use crate::rlwe::{RLWECiphertext, RLWESecretKey, rlwe_phase, close_to};

verus! {

/// The signed gadget digits of `c`, least-significant level first: at each
/// step the digit is balanced into `[-B/2, B/2]`, carrying into the next.
pub open spec fn spec_decompose_ls(c: int, base_log: int, levels: int) -> Seq<Scalar>
    recommends
        1 <= base_log <= 32,
        c >= 0,
    decreases levels,
{
    if levels <= 0 {
        Seq::empty()
    } else {
        let b = vstd::arithmetic::power2::pow2(base_log as nat) as int;
        let u = c % b;
        if u >= b / 2 {
            seq![((u - b) % spec_q()) as Scalar].add(
                spec_decompose_ls(c / b + 1, base_log, levels - 1),
            )
        } else {
            seq![u as Scalar].add(spec_decompose_ls(c / b, base_log, levels - 1))
        }
    }
}

/// The value whose digits the gadget takes: `x` rounded half up to the
/// precision the gadget can represent, or `x` itself when the gadget covers
/// the whole word.
pub open spec fn rounded_of(x: Scalar, base_log: int, levels: int) -> int
    recommends
        1 <= base_log <= 32,
        1 <= levels,
        base_log * levels <= 64,
{
    if base_log * levels >= 64 {
        x as int
    } else {
        crate::round_div_pow2(x, (64 - base_log * levels) as nat)
    }
}

/// The digits of the coefficient `x` after rounding off the bits the gadget
/// cannot represent.
pub open spec fn spec_decompose(x: Scalar, base_log: int, levels: int) -> Seq<Scalar>
    recommends
        1 <= base_log <= 32,
        1 <= levels,
        base_log * levels <= 64,
{
    spec_decompose_ls(rounded_of(x, base_log, levels), base_log, levels)
}

/// Every digit is balanced: its signed magnitude is at most `B/2`.
pub proof fn lemma_decompose_digit_bound(c: int, base_log: int, levels: int)
    requires
        1 <= base_log <= 32,
        c >= 0,
        levels >= 0,
    ensures
        forall|l: int|
            0 <= l < levels ==> sabs(#[trigger] spec_decompose_ls(c, base_log, levels)[l])
                <= vstd::arithmetic::power2::pow2(base_log as nat) as int / 2,
    decreases levels,
{
    if levels > 0 {
        let q = spec_q();
        let b = vstd::arithmetic::power2::pow2(base_log as nat) as int;
        vstd::arithmetic::power2::lemma_pow2_pos(base_log as nat);
        assert(b <= 0x1_0000_0000) by {
            vstd::arithmetic::power2::lemma_pow2_adds(base_log as nat, (32 - base_log) as nat);
            vstd::arithmetic::power2::lemma_pow2_pos((32 - base_log) as nat);
            vstd::arithmetic::power2::lemma2_to64();
            vstd::arithmetic::power2::lemma2_to64_rest();
            vstd::arithmetic::mul::lemma_mul_increases(
                vstd::arithmetic::power2::pow2((32 - base_log) as nat) as int,
                b,
            );
        }
        let u = c % b;
        vstd::arithmetic::div_mod::lemma_mod_bound(c, b);
        vstd::arithmetic::div_mod::lemma_div_pos_is_pos(c, b);
        let cur = spec_decompose_ls(c, base_log, levels);
        let cnext = if u >= b / 2 { c / b + 1 } else { c / b };
        let rest = spec_decompose_ls(cnext, base_log, levels - 1);
        let head: Scalar = if u >= b / 2 { ((u - b) % q) as Scalar } else { u as Scalar };
        assert(cur == seq![head].add(rest));
        lemma_decompose_digit_bound(cnext, base_log, levels - 1);
        assert(sabs(head) <= b / 2) by {
            vstd::arithmetic::power2::lemma_pow2_unfold(base_log as nat);
            assert(b == 2 * vstd::arithmetic::power2::pow2((base_log - 1) as nat));
            if u >= b / 2 {
                assert((u - b) % q == u - b + q) by {
                    vstd::arithmetic::div_mod::lemma_mod_multiples_vanish(1, u - b, q);
                    vstd::arithmetic::div_mod::lemma_small_mod((u - b + q) as nat, q as nat);
                }
            }
        }
        assert forall|l: int| 0 <= l < levels implies sabs(#[trigger] cur[l]) <= b / 2 by {
            lemma_spec_decompose_len(cnext, base_log, levels - 1);
            if l == 0 {
                assert(cur[0] == head);
            } else {
                assert(seq![head].len() == 1);
                assert(cur[l] == rest[l - 1]);
                assert(sabs(spec_decompose_ls(cnext, base_log, levels - 1)[l - 1]) <= b / 2);
            }
        }
    }
}

/// Compute the signed gadget digits of `x`: round off the unrepresentable
/// low bits, then peel off one balanced base-`B` digit per level, with carry.
pub fn decompose(x: Scalar, base_log: usize, levels: usize) -> (r: Vec<Scalar>)
    requires
        1 <= base_log <= 32,
        1 <= levels,
        base_log * levels <= 64,
    ensures
        r@.len() == levels,
        r@ == spec_decompose(x, base_log as int, levels as int),
{
    proof {
        assert(base_log * levels >= 1) by (nonlinear_arith)
            requires
                base_log >= 1,
                levels >= 1,
        ;
    }
    let nonrep: u64 = 64 - (base_log as u64) * (levels as u64);
    let c0 = if nonrep == 0 {
        x
    } else {
        crate::round_shift(x, nonrep)
    };
    proof {
        assert(c0 as int == rounded_of(x, base_log as int, levels as int));
        vstd::arithmetic::power2::lemma2_to64();
        vstd::arithmetic::power2::lemma2_to64_rest();
        vstd::arithmetic::power2::lemma_pow2_strictly_increases(base_log as nat, 64);
        vstd::bits::lemma_u64_shl_is_mul(1u64, base_log as u64);
        vstd::arithmetic::power2::lemma_pow2_pos(base_log as nat);
        if base_log > 1 {
            vstd::arithmetic::power2::lemma_pow2_strictly_increases(1, base_log as nat);
        }
    }
    let b: u64 = 1u64 << (base_log as u64);
    let half: u64 = b / 2;
    let mut c: u64 = c0;
    let mut out: Vec<Scalar> = Vec::new();
    let mut idx: usize = 0;
    let ghost full = spec_decompose_ls(c0 as int, base_log as int, levels as int);
    proof {
        lemma_spec_decompose_len(c0 as int, base_log as int, levels as int);
        assert(out@ =~= full.take(0));
        assert(full.skip(0) =~= full);
    }
    while idx < levels
        invariant
            1 <= base_log <= 32,
            b == vstd::arithmetic::power2::pow2(base_log as nat),
            2 <= b,
            half == b / 2,
            idx <= levels,
            out@.len() == idx,
            full == spec_decompose_ls(c0 as int, base_log as int, levels as int),
            full.len() == levels,
            out@ == full.take(idx as int),
            spec_decompose_ls(c as int, base_log as int, (levels - idx) as int) == full.skip(
                idx as int,
            ),
        decreases levels - idx,
    {
        let u = c % b;
        proof {
            vstd::arithmetic::div_mod::lemma_div_is_ordered_by_denominator(c as int, 2, b as int);
        }
        let digit: u64;
        if u >= half {
            digit = u.wrapping_sub(b);
            c = c / b + 1;
        } else {
            digit = u;
            c = c / b;
        }
        proof {
            let q = spec_q();
            let tail = full.skip(idx as int);
            let rest = spec_decompose_ls(c as int, base_log as int, (levels - idx - 1) as int);
            let head: Scalar = if u >= half {
                ((u - b) % q) as Scalar
            } else {
                u as Scalar
            };
            if u >= half {
                assert((u - b) % q == u - b + q) by {
                    vstd::arithmetic::div_mod::lemma_mod_multiples_vanish(1, u as int - b, q);
                    vstd::arithmetic::div_mod::lemma_small_mod((u - b + q) as nat, q as nat);
                }
                assert(digit == head);
            }
            assert(tail == seq![head].add(rest));
            assert(tail[0] == head);
            assert(seq![head].add(rest).skip(1) =~= rest);
            assert(full.skip(idx as int).skip(1) =~= full.skip(idx + 1));
            assert(out@.push(digit) =~= full.take(idx + 1));
        }
        out.push(digit);
        idx = idx + 1;
    }
    proof {
        assert(out@ =~= full);
    }
    out
}

/// A decomposition has one digit per level.
pub proof fn lemma_spec_decompose_len(c: int, base_log: int, levels: int)
    requires
        levels >= 0,
    ensures
        spec_decompose_ls(c, base_log, levels).len() == levels,
    decreases levels,
{
    if levels > 0 {
        let b = vstd::arithmetic::power2::pow2(base_log as nat) as int;
        let u = c % b;
        if u >= b / 2 {
            lemma_spec_decompose_len(c / b + 1, base_log, levels - 1);
        } else {
            lemma_spec_decompose_len(c / b, base_log, levels - 1);
        }
    }
}

/// Round `x` to the closest value the gadget can represent (half up), as the
/// wrapped product of the rounded quotient with the finest delta.
pub fn closest_representable(x: Scalar, base_log: usize, levels: usize) -> (r: Scalar)
    requires
        1 <= base_log <= 32,
        1 <= levels,
        base_log * levels <= 64,
    ensures
        r as int == (rounded_of(x, base_log as int, levels as int)
            * vstd::arithmetic::power2::pow2((64 - base_log * levels) as nat)) % spec_q(),
{
    proof {
        assert(base_log * levels >= 1) by (nonlinear_arith)
            requires
                base_log >= 1,
                levels >= 1,
        ;
    }
    let nonrep: u64 = 64 - (base_log as u64) * (levels as u64);
    let c0 = if nonrep == 0 {
        x
    } else {
        crate::round_shift(x, nonrep)
    };
    proof {
        assert(c0 as int == rounded_of(x, base_log as int, levels as int));
        vstd::arithmetic::power2::lemma2_to64();
        vstd::arithmetic::power2::lemma2_to64_rest();
        vstd::arithmetic::power2::lemma_pow2_strictly_increases(nonrep as nat, 64);
        vstd::bits::lemma_u64_shl_is_mul(1u64, nonrep);
    }
    let d: u64 = 1u64 << nonrep;
    let r = c0.wrapping_mul(d);
    r
}

/// An RGSW ciphertext: `2 * level_count` RLWE rows; row `2l` carries the
/// plaintext times `q/B^(l+1)` on its mask, row `2l+1` on its body.
pub struct RGSWCiphertext {
    pub rows: Vec<RLWECiphertext>,
    pub base_log: usize,
    pub level_count: usize,
}

/// The rows encrypt `pt` in gadget layout under `s`, with per-coefficient
/// noise at most `bound`: even rows hold `-(Delta_l * pt) * s` in their
/// phase, odd rows hold `Delta_l * pt`.
pub open spec fn rgsw_encrypts(
    rows: Seq<RLWECiphertext>,
    s: Seq<Scalar>,
    pt: Seq<Scalar>,
    base_log: int,
    bound: int,
) -> bool {
    forall|l: int|
        0 <= l < rows.len() / 2 ==> {
            &&& close_to(
                rlwe_phase(#[trigger] rows[2 * l].mask@, rows[2 * l].body@, s),
                seq_wneg(ncmul(seq_wscale(pt, gadget_delta(base_log, l + 1)), s)),
                bound,
            )
            &&& close_to(
                rlwe_phase(rows[2 * l + 1].mask@, rows[2 * l + 1].body@, s),
                seq_wscale(pt, gadget_delta(base_log, l + 1)),
                bound,
            )
        }
}

impl RGSWCiphertext {
    /// Shape: one pair of RLWE rows per level, all at degree `n`.
    pub open spec fn wf(&self, n: nat) -> bool {
        &&& 1 <= self.base_log <= 32
        &&& 1 <= self.level_count
        &&& self.base_log * self.level_count <= 64
        &&& self.rows@.len() == 2 * self.level_count
        &&& forall|r: int| 0 <= r < self.rows@.len() ==> (#[trigger] self.rows@[r]).wf(n)
    }

    /// The all-zero RGSW ciphertext of the given shape.
    pub fn allocate(poly_size: usize, decomp_base_log: usize, decomp_level: usize) -> (r:
        RGSWCiphertext)
        requires
            1 <= decomp_base_log <= 32,
            1 <= decomp_level,
            decomp_base_log * decomp_level <= 64,
        ensures
            r.wf(poly_size as nat),
            r.base_log == decomp_base_log,
            r.level_count == decomp_level,
            forall|i: int|
                0 <= i < r.rows@.len() ==> is_zero_poly(#[trigger] r.rows@[i].mask@) && is_zero_poly(
                    r.rows@[i].body@,
                ),
    {
        proof {
            assert(decomp_level <= 64) by (nonlinear_arith)
                requires
                    1 <= decomp_base_log,
                    decomp_base_log * decomp_level <= 64,
            ;
        }
        let count = 2 * decomp_level;
        let mut rows: Vec<RLWECiphertext> = Vec::new();
        let mut i: usize = 0;
        while i < count
            invariant
                i <= count,
                rows@.len() == i,
                forall|j: int| 0 <= j < i ==> (#[trigger] rows@[j]).wf(poly_size as nat),
                forall|j: int|
                    0 <= j < i ==> is_zero_poly(#[trigger] rows@[j].mask@) && is_zero_poly(
                        rows@[j].body@,
                    ),
            decreases count - i,
        {
            rows.push(RLWECiphertext::allocate(poly_size));
            i = i + 1;
        }
        RGSWCiphertext { rows, base_log: decomp_base_log, level_count: decomp_level }
    }

    /// The polynomial degree of the rows.
    pub fn polynomial_size(&self) -> (r: usize)
        requires
            self.rows@.len() >= 1,
        ensures
            r == self.rows@[0].mask@.len(),
    {
        self.rows[0].mask.len()
    }

    /// The number of decomposition levels.
    pub fn decomposition_level_count(&self) -> (r: usize)
        ensures
            r == self.level_count,
    {
        self.level_count
    }

    /// The gadget base, as its log2.
    pub fn decomposition_base_log(&self) -> (r: usize)
        ensures
            r == self.base_log,
    {
        self.base_log
    }

    /// The number of RLWE rows: two per level.
    pub fn ciphertext_count(&self) -> (r: usize)
        ensures
            r == self.rows@.len(),
    {
        self.rows.len()
    }

    /// The total number of scalars held.
    pub fn ciphertext_size(&self) -> (r: usize)
        requires
            self.rows@.len() >= 1,
            self.rows@[0].mask@.len() <= 0x10_0000,
            self.rows@.len() <= 0x100,
            self.rows@[0].body@.len() == self.rows@[0].mask@.len(),
        ensures
            r == self.rows@.len() * 2 * self.rows@[0].mask@.len(),
    {
        proof {
            let a = self.rows@.len() as int;
            let n = self.rows@[0].mask@.len() as int;
            assert(a * (2 * n) == a * 2 * n && a * (2 * n) <= 0x4000_0000) by (nonlinear_arith)
                requires
                    0 <= a <= 0x100,
                    0 <= n <= 0x10_0000,
            ;
        }
        self.rows.len() * (2 * self.rows[0].mask.len())
    }

    /// A copy of the `n`-th RLWE row.
    pub fn get_nth_row(&self, n: usize) -> (r: RLWECiphertext)
        requires
            n < self.rows@.len(),
        ensures
            r.mask@ == self.rows@[n as int].mask@,
            r.body@ == self.rows@[n as int].body@,
    {
        let mut out = RLWECiphertext::allocate(self.rows[n].mask.len());
        out.fill_with_copy(&self.rows[n]);
        out
    }

    /// A copy of the last row: the body row of the finest level.
    pub fn get_last_row(&self) -> (r: RLWECiphertext)
        requires
            self.rows@.len() >= 1,
        ensures
            r.mask@ == self.rows@[self.rows@.len() - 1].mask@,
            r.body@ == self.rows@[self.rows@.len() - 1].body@,
    {
        self.get_nth_row(self.rows.len() - 1)
    }

    /// Row-wise wrapping addition of another RGSW ciphertext.
    pub fn add_ciphertext(&mut self, ctxt: &RGSWCiphertext)
        requires
            old(self).rows@.len() == ctxt.rows@.len(),
            forall|i: int|
                0 <= i < ctxt.rows@.len() ==> (#[trigger] old(self).rows@[i]).mask@.len()
                    == ctxt.rows@[i].mask@.len() && old(self).rows@[i].body@.len()
                    == ctxt.rows@[i].body@.len(),
        ensures
            final(self).rows@.len() == old(self).rows@.len(),
            final(self).base_log == old(self).base_log,
            final(self).level_count == old(self).level_count,
            forall|i: int|
                0 <= i < ctxt.rows@.len() ==> (#[trigger] final(self).rows@[i]).mask@ == seq_wadd(
                    old(self).rows@[i].mask@,
                    ctxt.rows@[i].mask@,
                ) && final(self).rows@[i].body@ == seq_wadd(
                    old(self).rows@[i].body@,
                    ctxt.rows@[i].body@,
                ),
    {
        let count = self.rows.len();
        let mut i: usize = 0;
        while i < count
            invariant
                count == self.rows@.len(),
                count == ctxt.rows@.len(),
                self.base_log == old(self).base_log,
                self.level_count == old(self).level_count,
                forall|j: int|
                    0 <= j < count ==> (#[trigger] old(self).rows@[j]).mask@.len()
                        == ctxt.rows@[j].mask@.len() && old(self).rows@[j].body@.len()
                        == ctxt.rows@[j].body@.len(),
                i <= count,
                forall|j: int|
                    0 <= j < i ==> (#[trigger] self.rows@[j]).mask@ == seq_wadd(
                        old(self).rows@[j].mask@,
                        ctxt.rows@[j].mask@,
                    ) && self.rows@[j].body@ == seq_wadd(
                        old(self).rows@[j].body@,
                        ctxt.rows@[j].body@,
                    ),
                forall|j: int|
                    i <= j < count ==> (#[trigger] self.rows@[j]).mask@ == old(self).rows@[j].mask@
                        && self.rows@[j].body@ == old(self).rows@[j].body@,
            decreases count - i,
        {
            let other = &ctxt.rows[i];
            let row = &mut self.rows[i];
            update_with_wrapping_add(&mut row.mask, &other.mask);
            update_with_wrapping_add(&mut row.body, &other.body);
            i = i + 1;
        }
    }

    /// Row-wise wrapping subtraction of another RGSW ciphertext.
    pub fn sub_ciphertext(&mut self, ctxt: &RGSWCiphertext)
        requires
            old(self).rows@.len() == ctxt.rows@.len(),
            forall|i: int|
                0 <= i < ctxt.rows@.len() ==> (#[trigger] old(self).rows@[i]).mask@.len()
                    == ctxt.rows@[i].mask@.len() && old(self).rows@[i].body@.len()
                    == ctxt.rows@[i].body@.len(),
        ensures
            final(self).rows@.len() == old(self).rows@.len(),
            final(self).base_log == old(self).base_log,
            final(self).level_count == old(self).level_count,
            forall|i: int|
                0 <= i < ctxt.rows@.len() ==> (#[trigger] final(self).rows@[i]).mask@ == seq_wsub(
                    old(self).rows@[i].mask@,
                    ctxt.rows@[i].mask@,
                ) && final(self).rows@[i].body@ == seq_wsub(
                    old(self).rows@[i].body@,
                    ctxt.rows@[i].body@,
                ),
    {
        let count = self.rows.len();
        let mut i: usize = 0;
        while i < count
            invariant
                count == self.rows@.len(),
                count == ctxt.rows@.len(),
                self.base_log == old(self).base_log,
                self.level_count == old(self).level_count,
                forall|j: int|
                    0 <= j < count ==> (#[trigger] old(self).rows@[j]).mask@.len()
                        == ctxt.rows@[j].mask@.len() && old(self).rows@[j].body@.len()
                        == ctxt.rows@[j].body@.len(),
                i <= count,
                forall|j: int|
                    0 <= j < i ==> (#[trigger] self.rows@[j]).mask@ == seq_wsub(
                        old(self).rows@[j].mask@,
                        ctxt.rows@[j].mask@,
                    ) && self.rows@[j].body@ == seq_wsub(
                        old(self).rows@[j].body@,
                        ctxt.rows@[j].body@,
                    ),
                forall|j: int|
                    i <= j < count ==> (#[trigger] self.rows@[j]).mask@ == old(self).rows@[j].mask@
                        && self.rows@[j].body@ == old(self).rows@[j].body@,
            decreases count - i,
        {
            let other = &ctxt.rows[i];
            let row = &mut self.rows[i];
            update_with_wrapping_sub(&mut row.mask, &other.mask);
            update_with_wrapping_sub(&mut row.body, &other.body);
            i = i + 1;
        }
    }

    /// Multiply every row of `out` by the monic monomial `X^degree`.
    pub fn product_monomial(&self, out: &mut RGSWCiphertext, degree: usize)
        requires
            forall|i: int|
                0 <= i < old(out).rows@.len() ==> 1 <= (#[trigger] old(out).rows@[i]).mask@.len()
                    <= 0x1000_0000 && old(out).rows@[i].body@.len() == old(
                    out,
                ).rows@[i].mask@.len(),
        ensures
            final(out).rows@.len() == old(out).rows@.len(),
            final(out).base_log == old(out).base_log,
            final(out).level_count == old(out).level_count,
            forall|i: int|
                0 <= i < old(out).rows@.len() ==> (#[trigger] final(out).rows@[i]).mask@
                    == mono_mul(old(out).rows@[i].mask@, degree as int) && final(out).rows@[i].body@
                    == mono_mul(old(out).rows@[i].body@, degree as int),
    {
        let count = out.rows.len();
        let mut i: usize = 0;
        while i < count
            invariant
                count == out.rows@.len(),
                out.base_log == old(out).base_log,
                out.level_count == old(out).level_count,
                forall|j: int|
                    0 <= j < count ==> 1 <= (#[trigger] old(out).rows@[j]).mask@.len()
                        <= 0x1000_0000 && old(out).rows@[j].body@.len() == old(
                        out,
                    ).rows@[j].mask@.len(),
                i <= count,
                forall|j: int|
                    0 <= j < i ==> (#[trigger] out.rows@[j]).mask@ == mono_mul(
                        old(out).rows@[j].mask@,
                        degree as int,
                    ) && out.rows@[j].body@ == mono_mul(old(out).rows@[j].body@, degree as int),
                forall|j: int|
                    i <= j < count ==> (#[trigger] out.rows@[j]).mask@ == old(out).rows@[j].mask@
                        && out.rows@[j].body@ == old(out).rows@[j].body@,
            decreases count - i,
        {
            let row = &mut out.rows[i];
            update_with_product_monomial(&mut row.mask, degree);
            update_with_product_monomial(&mut row.body, degree);
            i = i + 1;
        }
    }
}

/// The `idx`-th gadget digit of every coefficient of `p` (least-significant
/// level first).
pub open spec fn digit_poly(p: Seq<Scalar>, base_log: int, levels: int, idx: int) -> Seq<Scalar> {
    Seq::new(p.len(), |i: int| spec_decompose(p[i], base_log, levels)[idx])
}

/// The mask polynomials of a list of RLWE rows.
pub open spec fn rgsw_masks(rows: Seq<RLWECiphertext>) -> Seq<Seq<Scalar>> {
    Seq::new(rows.len(), |r: int| rows[r].mask@)
}

/// The body polynomials of a list of RLWE rows.
pub open spec fn rgsw_bodies(rows: Seq<RLWECiphertext>) -> Seq<Seq<Scalar>> {
    Seq::new(rows.len(), |r: int| rows[r].body@)
}

/// One half of the external product accumulated over the first `l` levels:
/// each level contributes the digit polynomials of the input's mask and
/// body, multiplied into the matching pair of gadget row halves (`halves` is
/// the list of the rows' masks, or of their bodies).
pub open spec fn ext_partial_mask(
    halves: Seq<Seq<Scalar>>,
    base_log: int,
    levels: int,
    dmask: Seq<Scalar>,
    dbody: Seq<Scalar>,
    l: int,
    n: nat,
) -> Seq<Scalar>
    decreases l,
{
    if l <= 0 {
        zero_seq(n)
    } else {
        seq_wadd(
            ext_partial_mask(halves, base_log, levels, dmask, dbody, l - 1, n),
            seq_wadd(
                ncmul(digit_poly(dmask, base_log, levels, levels - l), halves[2 * (l - 1)]),
                ncmul(digit_poly(dbody, base_log, levels, levels - l), halves[2 * (l - 1) + 1]),
            ),
        )
    }
}

/// As [`ext_partial_mask`], applied to the rows' bodies.
pub open spec fn ext_partial_body(
    halves: Seq<Seq<Scalar>>,
    base_log: int,
    levels: int,
    dmask: Seq<Scalar>,
    dbody: Seq<Scalar>,
    l: int,
    n: nat,
) -> Seq<Scalar>
    decreases l,
{
    ext_partial_mask(halves, base_log, levels, dmask, dbody, l, n)
}


/// The accumulated external product keeps the polynomial degree.
pub proof fn lemma_ext_partial_len(
    halves: Seq<Seq<Scalar>>,
    base_log: int,
    levels: int,
    dmask: Seq<Scalar>,
    dbody: Seq<Scalar>,
    l: int,
    n: nat,
)
    requires
        l >= 0,
    ensures
        ext_partial_mask(halves, base_log, levels, dmask, dbody, l, n).len() == n,
        ext_partial_body(halves, base_log, levels, dmask, dbody, l, n).len() == n,
    decreases l,
{
    if l > 0 {
        lemma_ext_partial_len(halves, base_log, levels, dmask, dbody, l - 1, n);
    }
}

/// Componentwise wrapping addition of sequences is associative.
proof fn lemma_seq_wadd_assoc(a: Seq<Scalar>, b: Seq<Scalar>, c: Seq<Scalar>)
    requires
        a.len() == b.len(),
        a.len() == c.len(),
    ensures
        seq_wadd(seq_wadd(a, b), c) == seq_wadd(a, seq_wadd(b, c)),
{
    assert forall|i: int| 0 <= i < a.len() implies seq_wadd(seq_wadd(a, b), c)[i] == seq_wadd(
        a,
        seq_wadd(b, c),
    )[i] by {
        crate::lemma_wadd_assoc(a[i], b[i], c[i]);
    }
    assert(seq_wadd(seq_wadd(a, b), c) =~= seq_wadd(a, seq_wadd(b, c)));
}

/// The digit polynomial of `p` at index `idx`, as a vector.
fn digit_poly_exec(p: &Vec<Scalar>, base_log: usize, levels: usize, idx: usize) -> (r: Vec<Scalar>)
    requires
        1 <= base_log <= 32,
        1 <= levels,
        base_log * levels <= 64,
        idx < levels,
    ensures
        r@ == digit_poly(p@, base_log as int, levels as int, idx as int),
{
    let n = p.len();
    let mut out: Vec<Scalar> = Vec::new();
    let mut i: usize = 0;
    while i < n
        invariant
            n == p@.len(),
            1 <= base_log <= 32,
            1 <= levels,
            base_log * levels <= 64,
            idx < levels,
            i <= n,
            out@.len() == i,
            forall|j: int|
                0 <= j < i ==> out@[j] == digit_poly(
                    p@,
                    base_log as int,
                    levels as int,
                    idx as int,
                )[j],
        decreases n - i,
    {
        let ds = decompose(p[i], base_log, levels);
        out.push(ds[idx]);
        i = i + 1;
    }
    proof {
        assert(out@ =~= digit_poly(p@, base_log as int, levels as int, idx as int));
    }
    out
}

impl RGSWCiphertext {
    /// The external product `RGSW * RLWE -> RLWE`: decompose the input's
    /// mask and body into signed gadget digits and accumulate the digit
    /// polynomials against the gadget rows, level by level.
    pub fn external_product(&self, out: &mut RLWECiphertext, d: &RLWECiphertext)
        requires
            1 <= d.mask@.len() <= 0x1000_0000,
            d.body@.len() == d.mask@.len(),
            self.wf(d.mask@.len()),
        ensures
            final(out).wf(d.mask@.len()),
            final(out).mask@ == ext_partial_mask(
                rgsw_masks(self.rows@),
                self.base_log as int,
                self.level_count as int,
                d.mask@,
                d.body@,
                self.level_count as int,
                d.mask@.len(),
            ),
            final(out).body@ == ext_partial_body(
                rgsw_bodies(self.rows@),
                self.base_log as int,
                self.level_count as int,
                d.mask@,
                d.body@,
                self.level_count as int,
                d.mask@.len(),
            ),
    {
        let ghost n = d.mask@.len();
        let nn = d.mask.len();
        let levels = self.level_count;
        let base_log = self.base_log;
        let mut acc_mask = poly_zero(nn);
        let mut acc_body = poly_zero(nn);
        proof {
            assert(acc_mask@ =~= zero_seq(n));
            assert(acc_body@ =~= zero_seq(n));
        }
        proof {
            assert(levels <= 64) by (nonlinear_arith)
                requires
                    1 <= base_log,
                    base_log * levels <= 64,
            ;
        }
        let mut l: usize = 0;
        while l < levels
            invariant
                n == d.mask@.len(),
                nn == n,
                d.body@.len() == n,
                1 <= n <= 0x1000_0000,
                self.wf(n),
                levels == self.level_count,
                levels <= 64,
                base_log == self.base_log,
                l <= levels,
                acc_mask@ == ext_partial_mask(
                    rgsw_masks(self.rows@),
                    base_log as int,
                    levels as int,
                    d.mask@,
                    d.body@,
                    l as int,
                    n,
                ),
                acc_body@ == ext_partial_body(
                    rgsw_bodies(self.rows@),
                    base_log as int,
                    levels as int,
                    d.mask@,
                    d.body@,
                    l as int,
                    n,
                ),
            decreases levels - l,
        {
            let idx = levels - 1 - l;
            proof {
                lemma_ext_partial_len(
                    rgsw_masks(self.rows@),
                    base_log as int,
                    levels as int,
                    d.mask@,
                    d.body@,
                    l as int,
                    n,
                );
                lemma_ext_partial_len(
                    rgsw_bodies(self.rows@),
                    base_log as int,
                    levels as int,
                    d.mask@,
                    d.body@,
                    l as int,
                    n,
                );
                assert((#[trigger] self.rows@[2 * l as int]).wf(n));
                assert(self.rows@[2 * l as int + 1].wf(n));
            }
            let u = digit_poly_exec(&d.mask, base_log, levels, idx);
            let v = digit_poly_exec(&d.body, base_log, levels, idx);
            let row_a = &self.rows[2 * l];
            let row_b = &self.rows[2 * l + 1];
            let t1 = ncmul_exec(&u, &row_a.mask);
            let t2 = ncmul_exec(&v, &row_b.mask);
            let t3 = ncmul_exec(&u, &row_a.body);
            let t4 = ncmul_exec(&v, &row_b.body);
            let ghost acc_mask_old = acc_mask@;
            let ghost acc_body_old = acc_body@;
            update_with_wrapping_add(&mut acc_mask, &t1);
            update_with_wrapping_add(&mut acc_mask, &t2);
            update_with_wrapping_add(&mut acc_body, &t3);
            update_with_wrapping_add(&mut acc_body, &t4);
            proof {
                lemma_seq_wadd_assoc(acc_mask_old, t1@, t2@);
                lemma_seq_wadd_assoc(acc_body_old, t3@, t4@);
                assert(levels - (l + 1) == idx);
            }
            l = l + 1;
        }
        proof {
            lemma_ext_partial_len(
                rgsw_masks(self.rows@),
                base_log as int,
                levels as int,
                d.mask@,
                d.body@,
                levels as int,
                n,
            );
            lemma_ext_partial_len(
                rgsw_bodies(self.rows@),
                base_log as int,
                levels as int,
                d.mask@,
                d.body@,
                levels as int,
                n,
            );
        }
        out.mask = acc_mask;
        out.body = acc_body;
    }

    /// As [`Self::external_product`]; the in-place buffer variant shares the
    /// same time-domain computation.
    pub fn external_product_with_buf(&self, out: &mut RLWECiphertext, d: &RLWECiphertext)
        requires
            1 <= d.mask@.len() <= 0x1000_0000,
            d.body@.len() == d.mask@.len(),
            self.wf(d.mask@.len()),
        ensures
            final(out).wf(d.mask@.len()),
            final(out).mask@ == ext_partial_mask(
                rgsw_masks(self.rows@),
                self.base_log as int,
                self.level_count as int,
                d.mask@,
                d.body@,
                self.level_count as int,
                d.mask@.len(),
            ),
            final(out).body@ == ext_partial_body(
                rgsw_bodies(self.rows@),
                self.base_log as int,
                self.level_count as int,
                d.mask@,
                d.body@,
                self.level_count as int,
                d.mask@.len(),
            ),
    {
        self.external_product(out, d);
    }

    /// The internal product `RGSW * RGSW -> RGSW`: the external product of
    /// each row of `ctxt`, viewed as an RLWE ciphertext, with `self`.
    pub fn internal_product(&self, out: &mut RGSWCiphertext, ctxt: &RGSWCiphertext, ctx: &Context)
        requires
            1 <= ctx.poly_size <= 0x1000_0000,
            self.wf(ctx.poly_size as nat),
            ctxt.wf(ctx.poly_size as nat),
            old(out).rows@.len() == ctxt.rows@.len(),
        ensures
            final(out).rows@.len() == old(out).rows@.len(),
            final(out).base_log == old(out).base_log,
            final(out).level_count == old(out).level_count,
            old(out).wf(ctx.poly_size as nat) ==> final(out).wf(ctx.poly_size as nat),
            forall|e: int|
                0 <= e < ctxt.rows@.len() ==> (#[trigger] final(out).rows@[e]).mask@
                    == ext_partial_mask(
                    rgsw_masks(self.rows@),
                    self.base_log as int,
                    self.level_count as int,
                    ctxt.rows@[e].mask@,
                    ctxt.rows@[e].body@,
                    self.level_count as int,
                    ctx.poly_size as nat,
                ) && final(out).rows@[e].body@ == ext_partial_body(
                    rgsw_bodies(self.rows@),
                    self.base_log as int,
                    self.level_count as int,
                    ctxt.rows@[e].mask@,
                    ctxt.rows@[e].body@,
                    self.level_count as int,
                    ctx.poly_size as nat,
                ),
    {
        let count = out.rows.len();
        let mut e: usize = 0;
        while e < count
            invariant
                count == out.rows@.len(),
                count == ctxt.rows@.len(),
                out.base_log == old(out).base_log,
                out.level_count == old(out).level_count,
                1 <= ctx.poly_size <= 0x1000_0000,
                self.wf(ctx.poly_size as nat),
                ctxt.wf(ctx.poly_size as nat),
                e <= count,
                forall|j: int|
                    0 <= j < e ==> (#[trigger] out.rows@[j]).wf(ctx.poly_size as nat),
                forall|j: int|
                    e <= j < count ==> (#[trigger] out.rows@[j]).mask@ == old(out).rows@[j].mask@
                        && out.rows@[j].body@ == old(out).rows@[j].body@,
                forall|j: int|
                    0 <= j < e ==> (#[trigger] out.rows@[j]).mask@ == ext_partial_mask(
                        rgsw_masks(self.rows@),
                        self.base_log as int,
                        self.level_count as int,
                        ctxt.rows@[j].mask@,
                        ctxt.rows@[j].body@,
                        self.level_count as int,
                        ctx.poly_size as nat,
                    ) && out.rows@[j].body@ == ext_partial_body(
                        rgsw_bodies(self.rows@),
                        self.base_log as int,
                        self.level_count as int,
                        ctxt.rows@[j].mask@,
                        ctxt.rows@[j].body@,
                        self.level_count as int,
                        ctx.poly_size as nat,
                    ),
            decreases count - e,
        {
            proof {
                assert((#[trigger] ctxt.rows@[e as int]).wf(ctx.poly_size as nat));
            }
            let rlwe = ctxt.get_nth_row(e);
            let mut aux = RLWECiphertext::allocate(ctx.poly_size);
            self.external_product(&mut aux, &rlwe);
            let row = &mut out.rows[e];
            row.fill_with_copy(&aux);
            e = e + 1;
        }
    }
}

/// The constant polynomial with `pt` as its constant term.
pub open spec fn const_poly(pt: Scalar, n: nat) -> Seq<Scalar> {
    Seq::new(n as nat, |i: int| if i == 0 { pt } else { 0 as Scalar })
}

impl RLWESecretKey {
    /// Encrypt the polynomial `encoded` as an RGSW ciphertext: for each
    /// level, an encryption of zero plus `Delta_l * encoded` on the mask
    /// (even row) or on the body (odd row).
    pub fn encrypt_rgsw(&self, out: &mut RGSWCiphertext, encoded: &Vec<Scalar>, ctx: &mut Context)
        requires
            old(ctx).wf(),
            1 <= self.poly@.len() <= 0x1000_0000,
            encoded@.len() == self.poly@.len(),
            1 <= old(out).base_log <= 32,
            1 <= old(out).level_count,
            old(out).base_log * old(out).level_count <= 64,
        ensures
            final(out).wf(self.poly@.len()),
            final(out).base_log == old(out).base_log,
            final(out).level_count == old(out).level_count,
            rgsw_encrypts(
                final(out).rows@,
                self.poly@,
                encoded@,
                old(out).base_log as int,
                (1u64 << old(ctx).std_rlwe) as int,
            ),
            ctx_params_unchanged(old(ctx), final(ctx)),
    {
        let n = self.poly.len();
        let levels = out.level_count;
        let base_log = out.base_log;
        let noise_bits = ctx.std_rlwe;
        let ghost bound = (1u64 << noise_bits) as int;
        let mut rows: Vec<RLWECiphertext> = Vec::new();
        proof {
            assert(levels <= 64) by (nonlinear_arith)
                requires
                    1 <= base_log,
                    base_log * levels <= 64,
            ;
        }
        let mut l: usize = 0;
        while l < levels
            invariant
                n == self.poly@.len(),
                1 <= n <= 0x1000_0000,
                encoded@.len() == n,
                1 <= base_log <= 32,
                1 <= levels <= 64,
                base_log * levels <= 64,
                noise_bits == old(ctx).std_rlwe,
                noise_bits <= 50,
                bound == (1u64 << noise_bits) as int,
                ctx.wf(),
                ctx_params_unchanged(old(ctx), ctx),
                l <= levels,
                rows@.len() == 2 * l,
                forall|r: int| 0 <= r < rows@.len() ==> (#[trigger] rows@[r]).wf(n as nat),
                forall|t: int|
                    0 <= t < l ==> close_to(
                        rlwe_phase(#[trigger] rows@[2 * t].mask@, rows@[2 * t].body@, self.poly@),
                        seq_wneg(
                            ncmul(
                                seq_wscale(encoded@, gadget_delta(base_log as int, t + 1)),
                                self.poly@,
                            ),
                        ),
                        bound,
                    ) && close_to(
                        rlwe_phase(rows@[2 * t + 1].mask@, rows@[2 * t + 1].body@, self.poly@),
                        seq_wscale(encoded@, gadget_delta(base_log as int, t + 1)),
                        bound,
                    ),
            decreases levels - l,
        {
            proof {
                assert(base_log * (l + 1) <= base_log * levels) by (nonlinear_arith)
                    requires
                        0 <= base_log,
                        l + 1 <= levels,
                ;
                assert(base_log * (l + 1) >= 1) by (nonlinear_arith)
                    requires
                        base_log >= 1,
                        l >= 0,
                ;
            }
            let shift: u64 = 64 - (base_log as u64) * ((l as u64) + 1);
            proof {
                vstd::arithmetic::power2::lemma2_to64();
                vstd::arithmetic::power2::lemma2_to64_rest();
                vstd::arithmetic::power2::lemma_pow2_strictly_increases(shift as nat, 64);
                vstd::bits::lemma_u64_shl_is_mul(1u64, shift);
            }
            let delta: Scalar = 1u64 << shift;
            proof {
                assert(delta == gadget_delta(base_log as int, l as int + 1));
            }
            let mut w = encoded.clone();
            proof {
                assert(w@ =~= encoded@);
            }
            mul_const(&mut w, delta);
            let ghost target = seq_wscale(encoded@, gadget_delta(base_log as int, l as int + 1));
            proof {
                assert(w@ =~= target);
            }
            let prod = ncmul_exec(&w, &self.poly);

            let mut row0 = RLWECiphertext::allocate(n);
            let zero_pt = crate::poly::poly_zero(n);
            self.encrypt_rlwe(&mut row0, &zero_pt, noise_bits, &mut ctx.encryption_generator);
            let ghost m0 = row0.mask@;
            let ghost b0 = row0.body@;
            row0.update_mask_with_add(&w);

            let mut row1 = RLWECiphertext::allocate(n);
            self.encrypt_rlwe(&mut row1, &zero_pt, noise_bits, &mut ctx.encryption_generator);
            let ghost m1 = row1.mask@;
            let ghost b1 = row1.body@;
            row1.update_body_with_add(&w);

            proof {
                let s = self.poly@;
                let ts = ncmul(target, s);
                // even row: phase moves down by ncmul(w, s)
                crate::poly::lemma_ncmul_linear(m0, target, s);
                let ph0 = rlwe_phase(m0, b0, s);
                let new_ph0 = rlwe_phase(seq_wadd(m0, target), b0, s);
                assert forall|i: int| 0 <= i < n implies sabs(
                    wsub(#[trigger] new_ph0[i], seq_wneg(ts)[i]),
                ) <= bound by {
                    let x = ncmul(m0, s)[i];
                    let t = ts[i];
                    assert(ncmul(seq_wadd(m0, target), s)[i] == wadd(x, t));
                    crate::lemma_wsub_nested(b0[i], x, t);
                    assert(new_ph0[i] == wsub(ph0[i], t));
                    crate::lemma_wsub_wneg(ph0[i], t);
                    assert(sabs(wsub(ph0[i], zero_pt@[i])) <= bound);
                    crate::lemma_wsub_zero(ph0[i]);
                }
                assert(row0.mask@ == seq_wadd(m0, target));
                assert(close_to(rlwe_phase(row0.mask@, row0.body@, s), seq_wneg(ts), bound));

                // odd row: phase moves up by w
                let ph1 = rlwe_phase(m1, b1, s);
                let new_ph1 = rlwe_phase(m1, seq_wadd(b1, target), s);
                assert forall|i: int| 0 <= i < n implies sabs(
                    wsub(#[trigger] new_ph1[i], target[i]),
                ) <= bound by {
                    let x = ncmul(m1, s)[i];
                    crate::lemma_wadd_then_wsub(b1[i], target[i], x);
                    assert(new_ph1[i] == wadd(ph1[i], target[i]));
                    crate::lemma_wadd_comm(ph1[i], target[i]);
                    crate::lemma_wsub_cancel(target[i], ph1[i]);
                    assert(sabs(wsub(ph1[i], zero_pt@[i])) <= bound);
                    crate::lemma_wsub_zero(ph1[i]);
                }
                assert(close_to(rlwe_phase(row1.mask@, row1.body@, s), target, bound));
            }
            rows.push(row0);
            rows.push(row1);
            l = l + 1;
        }
        proof {
            assert(rows@.len() / 2 == levels);
        }
        out.rows = rows;
        out.base_log = base_log;
        out.level_count = levels;
    }
}

impl RLWESecretKey {
    /// Encrypt the constant `pt` as an RGSW ciphertext.
    pub fn encrypt_constant_rgsw(&self, out: &mut RGSWCiphertext, pt: Scalar, ctx: &mut Context)
        requires
            old(ctx).wf(),
            1 <= self.poly@.len() <= 0x1000_0000,
            old(ctx).poly_size == self.poly@.len(),
            1 <= old(out).base_log <= 32,
            1 <= old(out).level_count,
            old(out).base_log * old(out).level_count <= 64,
        ensures
            final(out).wf(self.poly@.len()),
            final(out).base_log == old(out).base_log,
            final(out).level_count == old(out).level_count,
            rgsw_encrypts(
                final(out).rows@,
                self.poly@,
                const_poly(pt, self.poly@.len()),
                old(out).base_log as int,
                (1u64 << old(ctx).std_rlwe) as int,
            ),
            ctx_params_unchanged(old(ctx), final(ctx)),
    {
        let mut encoded = poly_zero(ctx.poly_size);
        encoded.set(0, pt);
        proof {
            assert(encoded@ =~= const_poly(pt, self.poly@.len()));
        }
        self.encrypt_rgsw(out, &encoded, ctx);
    }

    /// As [`Self::encrypt_constant_rgsw`]: the arithmetic is wrapping
    /// throughout.
    pub fn encrypt_constant_wrapping_rgsw(
        &self,
        out: &mut RGSWCiphertext,
        pt: Scalar,
        ctx: &mut Context,
    )
        requires
            old(ctx).wf(),
            1 <= self.poly@.len() <= 0x1000_0000,
            old(ctx).poly_size == self.poly@.len(),
            1 <= old(out).base_log <= 32,
            1 <= old(out).level_count,
            old(out).base_log * old(out).level_count <= 64,
        ensures
            final(out).wf(self.poly@.len()),
            final(out).base_log == old(out).base_log,
            final(out).level_count == old(out).level_count,
            rgsw_encrypts(
                final(out).rows@,
                self.poly@,
                const_poly(pt, self.poly@.len()),
                old(out).base_log as int,
                (1u64 << old(ctx).std_rlwe) as int,
            ),
            ctx_params_unchanged(old(ctx), final(ctx)),
    {
        self.encrypt_constant_rgsw(out, pt, ctx);
    }

    /// As [`Self::encrypt_rgsw`]: the arithmetic is wrapping throughout.
    pub fn encrypt_wrapping_rgsw(
        &self,
        out: &mut RGSWCiphertext,
        encoded: &Vec<Scalar>,
        ctx: &mut Context,
    )
        requires
            old(ctx).wf(),
            1 <= self.poly@.len() <= 0x1000_0000,
            encoded@.len() == self.poly@.len(),
            1 <= old(out).base_log <= 32,
            1 <= old(out).level_count,
            old(out).base_log * old(out).level_count <= 64,
        ensures
            final(out).wf(self.poly@.len()),
            final(out).base_log == old(out).base_log,
            final(out).level_count == old(out).level_count,
            rgsw_encrypts(
                final(out).rows@,
                self.poly@,
                encoded@,
                old(out).base_log as int,
                (1u64 << old(ctx).std_rlwe) as int,
            ),
            ctx_params_unchanged(old(ctx), final(ctx)),
    {
        self.encrypt_rgsw(out, encoded, ctx);
    }

    /// One RGSW encryption per scalar of `v`.
    pub fn encrypt_constant_rgsw_vec(&self, v: &Vec<Scalar>, ctx: &mut Context) -> (r: Vec<
        RGSWCiphertext,
    >)
        requires
            old(ctx).wf(),
            1 <= self.poly@.len() <= 0x1000_0000,
            old(ctx).poly_size == self.poly@.len(),
        ensures
            r@.len() == v@.len(),
            forall|i: int|
                0 <= i < v@.len() ==> (#[trigger] r@[i]).wf(self.poly@.len()) && r@[i].base_log
                    == old(ctx).rgsw_base_log && r@[i].level_count == old(ctx).rgsw_level_count
                    && rgsw_encrypts(
                    r@[i].rows@,
                    self.poly@,
                    const_poly(v@[i], self.poly@.len()),
                    old(ctx).rgsw_base_log as int,
                    (1u64 << old(ctx).std_rlwe) as int,
                ),
            ctx_params_unchanged(old(ctx), final(ctx)),
    {
        let count = v.len();
        let mut r: Vec<RGSWCiphertext> = Vec::new();
        let mut i: usize = 0;
        while i < count
            invariant
                count == v@.len(),
                ctx.wf(),
                ctx_params_unchanged(old(ctx), ctx),
                1 <= self.poly@.len() <= 0x1000_0000,
                ctx.poly_size == self.poly@.len(),
                i <= count,
                r@.len() == i,
                forall|j: int|
                    0 <= j < i ==> (#[trigger] r@[j]).wf(self.poly@.len()) && r@[j].base_log
                        == old(ctx).rgsw_base_log && r@[j].level_count == old(ctx).rgsw_level_count
                        && rgsw_encrypts(
                        r@[j].rows@,
                        self.poly@,
                        const_poly(v@[j], self.poly@.len()),
                        old(ctx).rgsw_base_log as int,
                        (1u64 << old(ctx).std_rlwe) as int,
                    ),
            decreases count - i,
        {
            let mut rgsw_ct = RGSWCiphertext::allocate(
                ctx.poly_size,
                ctx.rgsw_base_log,
                ctx.rgsw_level_count,
            );
            self.encrypt_constant_rgsw(&mut rgsw_ct, v[i], ctx);
            r.push(rgsw_ct);
            i = i + 1;
        }
        r
    }

    /// RGSW encryption of `-s` (each key coefficient times `q - 1`), at the
    /// negated-key gadget parameters.
    pub fn neg_gsw(&self, ctx: &mut Context) -> (r: RGSWCiphertext)
        requires
            old(ctx).wf(),
            1 <= self.poly@.len() <= 0x1000_0000,
            old(ctx).poly_size == self.poly@.len(),
            old(ctx).negs_base_log * old(ctx).negs_level_count <= 64,
        ensures
            r.wf(self.poly@.len()),
            r.base_log == old(ctx).negs_base_log,
            r.level_count == old(ctx).negs_level_count,
            rgsw_encrypts(
                r.rows@,
                self.poly@,
                seq_wscale(self.poly@, Scalar::MAX),
                old(ctx).negs_base_log as int,
                (1u64 << old(ctx).std_rlwe) as int,
            ),
            ctx_params_unchanged(old(ctx), final(ctx)),
    {
        let n = self.poly.len();
        let mut neg_sk: Vec<Scalar> = Vec::new();
        let mut i: usize = 0;
        while i < n
            invariant
                n == self.poly@.len(),
                i <= n,
                neg_sk@.len() == i,
                forall|j: int| 0 <= j < i ==> neg_sk@[j] == crate::wmul(self.poly@[j], Scalar::MAX),
            decreases n - i,
        {
            let x = self.poly[i].wrapping_mul(u64::MAX);
            neg_sk.push(x);
            i = i + 1;
        }
        proof {
            assert(neg_sk@ =~= seq_wscale(self.poly@, Scalar::MAX));
        }
        let mut neg_sk_ct = RGSWCiphertext::allocate(
            ctx.poly_size,
            ctx.negs_base_log,
            ctx.negs_level_count,
        );
        self.encrypt_rgsw(&mut neg_sk_ct, &neg_sk, ctx);
        neg_sk_ct
    }

    /// Lift a 32-bit coefficient list to the negated 64-bit plaintext
    /// `y * (q - 1)` per coefficient.
    pub fn neg_gsw2(list: &Vec<u32>, ctx: &Context) -> (r: Vec<Scalar>)
        requires
            list@.len() == ctx.poly_size,
        ensures
            r@.len() == ctx.poly_size,
            forall|i: int| 0 <= i < r@.len() ==> r@[i] == crate::wmul(list@[i] as u64, Scalar::MAX),
    {
        let n = list.len();
        let mut out: Vec<Scalar> = Vec::new();
        let mut i: usize = 0;
        while i < n
            invariant
                n == list@.len(),
                i <= n,
                out@.len() == i,
                forall|j: int| 0 <= j < i ==> out@[j] == crate::wmul(list@[j] as u64, Scalar::MAX),
            decreases n - i,
        {
            let x = (list[i] as u64).wrapping_mul(u64::MAX);
            out.push(x);
            i = i + 1;
        }
        out
    }
}

/// Rebuild an RGSW ciphertext from gadget-decomposed RLWE encryptions: even
/// rows come from the external product with an encryption of `-s`, odd rows
/// are the RLWE ciphertexts themselves.
pub fn decomposed_rlwe_to_rgsw(
    cs: &Vec<RLWECiphertext>,
    neg_s: &RGSWCiphertext,
    ctx: &Context,
) -> (r: RGSWCiphertext)
    requires
        ctx.wf(),
        ctx.rgsw_base_log * ctx.rgsw_level_count <= 64,
        cs@.len() >= ctx.rgsw_level_count,
        neg_s.wf(ctx.poly_size as nat),
        forall|i: int| 0 <= i < cs@.len() ==> (#[trigger] cs@[i]).wf(ctx.poly_size as nat),
    ensures
        r.wf(ctx.poly_size as nat),
        r.base_log == ctx.rgsw_base_log,
        r.level_count == ctx.rgsw_level_count,
        forall|k: int|
            0 <= k < ctx.rgsw_level_count ==> (#[trigger] r.rows@[2 * k]).mask@ == ext_partial_mask(
                rgsw_masks(neg_s.rows@),
                neg_s.base_log as int,
                neg_s.level_count as int,
                cs@[k].mask@,
                cs@[k].body@,
                neg_s.level_count as int,
                ctx.poly_size as nat,
            ) && r.rows@[2 * k].body@ == ext_partial_body(
                rgsw_bodies(neg_s.rows@),
                neg_s.base_log as int,
                neg_s.level_count as int,
                cs@[k].mask@,
                cs@[k].body@,
                neg_s.level_count as int,
                ctx.poly_size as nat,
            ) && r.rows@[2 * k + 1].mask@ == cs@[k].mask@ && r.rows@[2 * k + 1].body@
                == cs@[k].body@,
{
    proof {
        assert(ctx.rgsw_level_count <= 64) by (nonlinear_arith)
            requires
                1 <= ctx.rgsw_base_log,
                ctx.rgsw_base_log * ctx.rgsw_level_count <= 64,
        ;
    }
    let mut out = RGSWCiphertext::allocate(ctx.poly_size, ctx.rgsw_base_log, ctx.rgsw_level_count);
    let levels = ctx.rgsw_level_count;
    let mut rows: Vec<RLWECiphertext> = Vec::new();
    let mut k: usize = 0;
    while k < levels
        invariant
            ctx.wf(),
            levels == ctx.rgsw_level_count,
            levels <= 64,
            cs@.len() >= levels,
            neg_s.wf(ctx.poly_size as nat),
            forall|i: int| 0 <= i < cs@.len() ==> (#[trigger] cs@[i]).wf(ctx.poly_size as nat),
            k <= levels,
            rows@.len() == 2 * k,
            forall|j: int| 0 <= j < rows@.len() ==> (#[trigger] rows@[j]).wf(ctx.poly_size as nat),
            forall|t: int|
                0 <= t < k ==> (#[trigger] rows@[2 * t]).mask@ == ext_partial_mask(
                    rgsw_masks(neg_s.rows@),
                    neg_s.base_log as int,
                    neg_s.level_count as int,
                    cs@[t].mask@,
                    cs@[t].body@,
                    neg_s.level_count as int,
                    ctx.poly_size as nat,
                ) && rows@[2 * t].body@ == ext_partial_body(
                    rgsw_bodies(neg_s.rows@),
                    neg_s.base_log as int,
                    neg_s.level_count as int,
                    cs@[t].mask@,
                    cs@[t].body@,
                    neg_s.level_count as int,
                    ctx.poly_size as nat,
                ) && rows@[2 * t + 1].mask@ == cs@[t].mask@ && rows@[2 * t + 1].body@
                    == cs@[t].body@,
        decreases levels - k,
    {
        proof {
            assert((#[trigger] cs@[k as int]).wf(ctx.poly_size as nat));
        }
        let mut even = RLWECiphertext::allocate(ctx.poly_size);
        neg_s.external_product(&mut even, &cs[k]);
        let mut odd = RLWECiphertext::allocate(ctx.poly_size);
        odd.fill_with_copy(&cs[k]);
        rows.push(even);
        rows.push(odd);
        k = k + 1;
    }
    out.rows = rows;
    out
}

/// Decrypt the first body row of an RGSW ciphertext and report the
/// worst-case noise against the (already encoded) expected plaintext.
pub fn compute_noise_rgsw(
    gsw_ct: &RGSWCiphertext,
    ptxt: &Vec<Scalar>,
    sk: &RLWESecretKey,
    ctx: &Context,
) -> (r: Scalar)
    requires
        1 <= sk.poly@.len() <= 0x1000_0000,
        gsw_ct.wf(sk.poly@.len()),
        ptxt@.len() == sk.poly@.len(),
        ctx.poly_size == sk.poly@.len(),
    ensures
        r as int == crate::rlwe::max_noise(
            rlwe_phase(gsw_ct.rows@[1].mask@, gsw_ct.rows@[1].body@, sk.poly@),
            ptxt@,
            sk.poly@.len() as int,
        ),
{
    let row = gsw_ct.get_nth_row(1);
    let mut error_pt = poly_zero(ptxt.len());
    sk.decrypt_wrapping_rlwe(&mut error_pt, &row);
    crate::rlwe::measure_noise(&error_pt, ptxt)
}

impl RGSWCiphertext {
    /// Overwrite this ciphertext with a copy of `other`, shape included.
    pub fn fill_with_copy(&mut self, other: &RGSWCiphertext)
        ensures
            final(self).rows@.len() == other.rows@.len(),
            final(self).base_log == other.base_log,
            final(self).level_count == other.level_count,
            forall|i: int|
                0 <= i < other.rows@.len() ==> (#[trigger] final(self).rows@[i]).mask@
                    == other.rows@[i].mask@ && final(self).rows@[i].body@ == other.rows@[i].body@,
    {
        let count = other.rows.len();
        let mut rows: Vec<RLWECiphertext> = Vec::new();
        let mut i: usize = 0;
        while i < count
            invariant
                count == other.rows@.len(),
                i <= count,
                rows@.len() == i,
                forall|j: int|
                    0 <= j < i ==> (#[trigger] rows@[j]).mask@ == other.rows@[j].mask@
                        && rows@[j].body@ == other.rows@[j].body@,
            decreases count - i,
        {
            let mut row = RLWECiphertext { mask: Vec::new(), body: Vec::new() };
            row.fill_with_copy(&other.rows[i]);
            rows.push(row);
            i = i + 1;
        }
        self.rows = rows;
        self.base_log = other.base_log;
        self.level_count = other.level_count;
    }
}

/// The integer a digit sequence stands for: digits are least-significant
/// first, each worth a factor `B = 2^base_log` more than the last, and each
/// read at its signed value.
pub open spec fn gadget_recon(digits: Seq<Scalar>, base_log: int) -> int
    decreases digits.len(),
{
    if digits.len() == 0 {
        0
    } else {
        crate::signed(digits[0]) + vstd::arithmetic::power2::pow2(base_log as nat) as int
            * gadget_recon(digits.skip(1), base_log)
    }
}

/// The signed gadget digits of `c` reconstruct `c` modulo `B^levels`: the
/// balanced decomposition loses nothing but the top carry.
pub proof fn lemma_decompose_reconstructs(c: int, base_log: int, levels: int)
    requires
        1 <= base_log <= 32,
        c >= 0,
        0 <= levels,
        base_log * levels <= 64,
    ensures
        gadget_recon(spec_decompose_ls(c, base_log, levels), base_log) % (
        vstd::arithmetic::power2::pow2((base_log * levels) as nat) as int) == c % (
        vstd::arithmetic::power2::pow2((base_log * levels) as nat) as int),
    decreases levels,
{
    let q = spec_q();
    let b = vstd::arithmetic::power2::pow2(base_log as nat) as int;
    let big = vstd::arithmetic::power2::pow2((base_log * levels) as nat) as int;
    vstd::arithmetic::power2::lemma_pow2_pos((base_log * levels) as nat);
    if levels == 0 {
        assert(base_log * levels == 0) by (nonlinear_arith)
            requires
                levels == 0,
        ;
        assert(vstd::arithmetic::power2::pow2(0) == 1) by {
            vstd::arithmetic::power2::lemma2_to64();
        }
        assert(big == 1);
        vstd::arithmetic::div_mod::lemma_mod_bound(0, 1);
        vstd::arithmetic::div_mod::lemma_mod_bound(c, 1);
        assert(spec_decompose_ls(c, base_log, 0) =~= Seq::<Scalar>::empty());
        assert(gadget_recon(spec_decompose_ls(c, base_log, levels), base_log) == 0);
        assert(gadget_recon(spec_decompose_ls(c, base_log, levels), base_log) % big == 0);
        assert(c % big == 0);
    } else {
        vstd::arithmetic::power2::lemma_pow2_pos(base_log as nat);
        assert(b <= 0x1_0000_0000) by {
            vstd::arithmetic::power2::lemma_pow2_adds(base_log as nat, (32 - base_log) as nat);
            vstd::arithmetic::power2::lemma_pow2_pos((32 - base_log) as nat);
            vstd::arithmetic::power2::lemma2_to64();
            vstd::arithmetic::power2::lemma2_to64_rest();
            vstd::arithmetic::mul::lemma_mul_increases(
                vstd::arithmetic::power2::pow2((32 - base_log) as nat) as int,
                b,
            );
        }
        let u = c % b;
        vstd::arithmetic::div_mod::lemma_mod_bound(c, b);
        vstd::arithmetic::div_mod::lemma_div_pos_is_pos(c, b);
        vstd::arithmetic::div_mod::lemma_fundamental_div_mod(c, b);
        let carry: int = if u >= b / 2 {
            1
        } else {
            0
        };
        let cnext = c / b + carry;
        let head: Scalar = if u >= b / 2 {
            ((u - b) % q) as Scalar
        } else {
            u as Scalar
        };
        let digits = spec_decompose_ls(c, base_log, levels);
        let rest = spec_decompose_ls(cnext, base_log, levels - 1);
        assert(digits == seq![head].add(rest));
        assert(digits.skip(1) =~= rest);
        lemma_spec_decompose_len(cnext, base_log, levels - 1);
        assert(digits.len() == levels) by {
            lemma_spec_decompose_len(c, base_log, levels);
        }
        // signed value of the head digit
        assert(crate::signed(head) == u - carry * b) by {
            if u >= b / 2 {
                assert((u - b) % q == u - b + q) by {
                    vstd::arithmetic::div_mod::lemma_mod_multiples_vanish(1, u - b, q);
                    vstd::arithmetic::div_mod::lemma_small_mod((u - b + q) as nat, q as nat);
                }
            }
        }
        // induction on the tail
        assert(base_log * (levels - 1) >= 0) by (nonlinear_arith)
            requires
                base_log >= 1,
                levels >= 1,
        ;
        assert(base_log * (levels - 1) <= base_log * levels) by (nonlinear_arith)
            requires
                base_log >= 0,
                levels >= 1,
        ;
        lemma_decompose_reconstructs(cnext, base_log, levels - 1);
        let small = vstd::arithmetic::power2::pow2((base_log * (levels - 1)) as nat) as int;
        vstd::arithmetic::power2::lemma_pow2_pos((base_log * (levels - 1)) as nat);
        // big == b * small
        assert(big == b * small) by {
            assert(base_log + base_log * (levels - 1) == base_log * levels) by (nonlinear_arith);
            vstd::arithmetic::power2::lemma_pow2_adds(
                base_log as nat,
                (base_log * (levels - 1)) as nat,
            );
        }
        // turn the congruence on the tail into an exact multiple
        let rr = gadget_recon(rest, base_log);
        vstd::arithmetic::div_mod::lemma_fundamental_div_mod(rr, small);
        vstd::arithmetic::div_mod::lemma_fundamental_div_mod(cnext, small);
        let t = rr / small - cnext / small;
        assert(rr == cnext + small * t) by {
            assert(rr % small == cnext % small);
            assert(rr == small * (rr / small) + rr % small);
            assert(cnext == small * (cnext / small) + cnext % small);
            vstd::arithmetic::mul::lemma_mul_is_distributive_sub(
                small,
                rr / small,
                cnext / small,
            );
        }
        // reassemble: head + b * recon(rest) == c + big * t
        assert(gadget_recon(digits, base_log) == crate::signed(head) + b * rr);
        assert(b * rr == b * cnext + big * t) by {
            vstd::arithmetic::mul::lemma_mul_is_distributive_add_other_way(b, cnext, small * t);
            vstd::arithmetic::mul::lemma_mul_is_associative(b, small, t);
        }
        assert(b * cnext == b * (c / b) + b * carry) by {
            vstd::arithmetic::mul::lemma_mul_is_distributive_add_other_way(b, c / b, carry);
        }
        assert(crate::signed(head) + b * cnext == c) by {
            assert(carry * b == b * carry) by (nonlinear_arith);
        }
        assert(gadget_recon(digits, base_log) == c + big * t);
        vstd::arithmetic::div_mod::lemma_mod_multiples_vanish(t, c, big);
        assert((big * t + c) % big == c % big);
    }
}

/// The digits of a coefficient reconstruct its closest representable value:
/// scaling the signed digit sum by the finest delta lands, modulo `q`, on
/// what [`closest_representable`] returns.
pub proof fn lemma_decompose_closest(x: Scalar, base_log: int, levels: int)
    requires
        1 <= base_log <= 32,
        1 <= levels,
        base_log * levels <= 64,
    ensures
        (gadget_recon(spec_decompose(x, base_log, levels), base_log)
            * vstd::arithmetic::power2::pow2((64 - base_log * levels) as nat)) % spec_q() == (
        rounded_of(x, base_log, levels) * vstd::arithmetic::power2::pow2(
            (64 - base_log * levels) as nat,
        ) as int) % spec_q(),
{
    let q = spec_q();
    let nonrep = (64 - base_log * levels) as nat;
    let small = vstd::arithmetic::power2::pow2(nonrep) as int;
    let big = vstd::arithmetic::power2::pow2((base_log * levels) as nat) as int;
    let c = rounded_of(x, base_log, levels);
    vstd::arithmetic::power2::lemma_pow2_pos(nonrep);
    vstd::arithmetic::power2::lemma_pow2_pos((base_log * levels) as nat);
    assert(c >= 0) by {
        if base_log * levels < 64 {
            vstd::arithmetic::power2::lemma_pow2_pos((nonrep - 1) as nat);
            vstd::arithmetic::div_mod::lemma_div_pos_is_pos(
                x + vstd::arithmetic::power2::pow2((nonrep - 1) as nat),
                small,
            );
        }
    }
    lemma_decompose_reconstructs(c, base_log, levels);
    let rr = gadget_recon(spec_decompose_ls(c, base_log, levels), base_log);
    vstd::arithmetic::div_mod::lemma_fundamental_div_mod(rr, big);
    vstd::arithmetic::div_mod::lemma_fundamental_div_mod(c, big);
    let t = rr / big - c / big;
    assert(rr == c + big * t) by {
        assert(rr % big == c % big);
        vstd::arithmetic::mul::lemma_mul_is_distributive_sub(big, rr / big, c / big);
    }
    assert(big * small == q) by {
        assert(base_log * levels + (64 - base_log * levels) == 64);
        vstd::arithmetic::power2::lemma_pow2_adds((base_log * levels) as nat, nonrep);
        vstd::arithmetic::power2::lemma2_to64_rest();
    }
    assert(rr * small == c * small + q * t) by {
        vstd::arithmetic::mul::lemma_mul_is_distributive_add_other_way(small, c, big * t);
        vstd::arithmetic::mul::lemma_mul_is_associative(big, t, small);
        assert(big * t * small == big * small * t) by (nonlinear_arith);
    }
    vstd::arithmetic::div_mod::lemma_mod_multiples_vanish(t, c * small, q);
    assert((q * t + c * small) % q == (c * small) % q);
}

/// As [`rgsw_encrypts`], stated over the rows' halves given as two parallel
/// lists (the masks and the bodies), for contracts that speak of drawn
/// ciphertexts as plain values.
pub open spec fn rgsw_encrypts_halves(
    masks: Seq<Seq<Scalar>>,
    bodies: Seq<Seq<Scalar>>,
    s: Seq<Scalar>,
    pt: Seq<Scalar>,
    base_log: int,
    bound: int,
) -> bool {
    forall|l: int|
        0 <= l < masks.len() / 2 ==> {
            &&& close_to(
                rlwe_phase(#[trigger] masks[2 * l], bodies[2 * l], s),
                seq_wneg(ncmul(seq_wscale(pt, gadget_delta(base_log, l + 1)), s)),
                bound,
            )
            &&& close_to(
                rlwe_phase(masks[2 * l + 1], bodies[2 * l + 1], s),
                seq_wscale(pt, gadget_delta(base_log, l + 1)),
                bound,
            )
        }
}

/// A gadget encryption stated over rows is one stated over their halves.
pub proof fn lemma_rgsw_encrypts_halves(
    rows: Seq<RLWECiphertext>,
    s: Seq<Scalar>,
    pt: Seq<Scalar>,
    base_log: int,
    bound: int,
)
    requires
        rgsw_encrypts(rows, s, pt, base_log, bound),
    ensures
        rgsw_encrypts_halves(rgsw_masks(rows), rgsw_bodies(rows), s, pt, base_log, bound),
{
    let masks = rgsw_masks(rows);
    let bodies = rgsw_bodies(rows);
    assert forall|l: int| 0 <= l < masks.len() / 2 implies {
        &&& close_to(
            rlwe_phase(#[trigger] masks[2 * l], bodies[2 * l], s),
            seq_wneg(ncmul(seq_wscale(pt, gadget_delta(base_log, l + 1)), s)),
            bound,
        )
        &&& close_to(
            rlwe_phase(masks[2 * l + 1], bodies[2 * l + 1], s),
            seq_wscale(pt, gadget_delta(base_log, l + 1)),
            bound,
        )
    } by {
        assert(masks[2 * l] == rows[2 * l].mask@);
        assert(bodies[2 * l] == rows[2 * l].body@);
        assert(masks[2 * l + 1] == rows[2 * l + 1].mask@);
        assert(bodies[2 * l + 1] == rows[2 * l + 1].body@);
        assert(close_to(
            rlwe_phase(#[trigger] rows[2 * l].mask@, rows[2 * l].body@, s),
            seq_wneg(ncmul(seq_wscale(pt, gadget_delta(base_log, l + 1)), s)),
            bound,
        ));
    }
}

} // verus!
