//! Arithmetic in the negacyclic ring `R_q = Z_q[X]/(X^N + 1)` with `q = 2^64`.
//!
//! A polynomial is a `Vec<Scalar>` of its `N` coefficients, constant term
//! first. Multiplication by the monic monomial `X^d` wraps around `X^N` with
//! a sign flip every `N` positions.
use vstd::prelude::*;
use crate::{Scalar, spec_q, wadd, wsub, wmul, wneg};
use vstd::arithmetic::div_mod::{
    lemma_mod_multiples_vanish,
    lemma_small_mod,
    lemma_mod_division_less_than_divisor,
    lemma_mod_bound,
};

verus! {

/// Componentwise wrapping sum of two coefficient sequences.
pub open spec fn seq_wadd(a: Seq<Scalar>, b: Seq<Scalar>) -> Seq<Scalar> {
    Seq::new(a.len(), |i: int| wadd(a[i], b[i]))
}

/// Componentwise wrapping difference of two coefficient sequences.
pub open spec fn seq_wsub(a: Seq<Scalar>, b: Seq<Scalar>) -> Seq<Scalar> {
    Seq::new(a.len(), |i: int| wsub(a[i], b[i]))
}

/// Componentwise wrapping negation.
pub open spec fn seq_wneg(a: Seq<Scalar>) -> Seq<Scalar> {
    Seq::new(a.len(), |i: int| wneg(a[i]))
}

/// Every coefficient multiplied (wrapping) by the scalar `c`.
pub open spec fn seq_wscale(a: Seq<Scalar>, c: Scalar) -> Seq<Scalar> {
    Seq::new(a.len(), |i: int| wmul(a[i], c))
}

/// Coefficient `i` of `X^d * p` in `R_q`: the source index is `i - d`
/// reduced modulo `2N`, with a sign flip when it lands in the upper period.
pub open spec fn mono_mul_coeff(p: Seq<Scalar>, d: int, i: int) -> Scalar {
    let n = p.len() as int;
    let t = (i - d) % (2 * n);
    if t < n {
        p[t]
    } else {
        wneg(p[t - n])
    }
}

/// `X^d * p` in `R_q`.
pub open spec fn mono_mul(p: Seq<Scalar>, d: int) -> Seq<Scalar> {
    Seq::new(p.len(), |i: int| mono_mul_coeff(p, d, i))
}

/// `X^{-d} * p` in `R_q`: the source index is `i + d` modulo `2N`.
pub open spec fn mono_div(p: Seq<Scalar>, d: int) -> Seq<Scalar> {
    Seq::new(
        p.len(),
        |i: int|
            {
                let n = p.len() as int;
                let t = (i + d) % (2 * n);
                if t < n {
                    p[t]
                } else {
                    wneg(p[t - n])
                }
            },
    )
}

/// Signed contribution of index `j` to coefficient `i` of the negacyclic
/// product `a * s`: the pair `(j, i - j)` when `j <= i`, and the wrapped
/// pair `(j, i - j + N)` with a minus sign when `j > i`.
pub open spec fn nc_term(a: Seq<Scalar>, s: Seq<Scalar>, i: int, j: int) -> int {
    if j <= i {
        a[j] * s[i - j]
    } else {
        -(a[j] * s[i - j + a.len()])
    }
}

/// Sum of the first `j` contributions to coefficient `i` of `a * s`.
pub open spec fn nc_partial(a: Seq<Scalar>, s: Seq<Scalar>, i: int, j: int) -> int
    decreases j,
{
    if j <= 0 {
        0
    } else {
        nc_partial(a, s, i, j - 1) + nc_term(a, s, i, j - 1)
    }
}

/// Coefficient `i` of the negacyclic product `a * s`, reduced into `Z_q`.
pub open spec fn ncmul_coeff(a: Seq<Scalar>, s: Seq<Scalar>, i: int) -> Scalar {
    (nc_partial(a, s, i, a.len() as int) % spec_q()) as Scalar
}

/// The negacyclic product `a * s` in `R_q`.
pub open spec fn ncmul(a: Seq<Scalar>, s: Seq<Scalar>) -> Seq<Scalar> {
    Seq::new(a.len(), |i: int| ncmul_coeff(a, s, i))
}

/// All coefficients zero.
pub open spec fn is_zero_poly(p: Seq<Scalar>) -> bool {
    forall|i: int| 0 <= i < p.len() ==> p[i] == 0
}

/// All coefficients 0 or 1.
pub open spec fn is_binary_poly(p: Seq<Scalar>) -> bool {
    forall|i: int| 0 <= i < p.len() ==> p[i] == 0 || p[i] == 1
}

/// Allocate the zero polynomial of `n` coefficients.
pub fn poly_zero(n: usize) -> (r: Vec<Scalar>)
    ensures
        r@.len() == n,
        is_zero_poly(r@),
{
    let mut v: Vec<Scalar> = Vec::new();
    let mut i: usize = 0;
    while i < n
        invariant
            i <= n,
            v@.len() == i,
            is_zero_poly(v@),
        decreases n - i,
    {
        v.push(0);
        i = i + 1;
    }
    v
}

/// In-place componentwise wrapping addition.
pub fn update_with_wrapping_add(a: &mut Vec<Scalar>, b: &Vec<Scalar>)
    requires
        old(a)@.len() == b@.len(),
    ensures
        final(a)@ == seq_wadd(old(a)@, b@),
{
    let n = a.len();
    let mut i: usize = 0;
    while i < n
        invariant
            i <= n,
            a@.len() == n,
            b@.len() == n,
            forall|j: int| 0 <= j < i ==> a@[j] == wadd(old(a)@[j], b@[j]),
            forall|j: int| i <= j < n ==> a@[j] == old(a)@[j],
        decreases n - i,
    {
        let x = a[i].wrapping_add(b[i]);
        proof {
            assert(vstd::wrapping::u64_specs::wrapping_add(a@[i as int], b@[i as int]) == wadd(
                a@[i as int],
                b@[i as int],
            ));
        }
        a.set(i, x);
        i = i + 1;
    }
    proof {
        assert(a@ =~= seq_wadd(old(a)@, b@));
    }
}

/// In-place componentwise wrapping subtraction.
pub fn update_with_wrapping_sub(a: &mut Vec<Scalar>, b: &Vec<Scalar>)
    requires
        old(a)@.len() == b@.len(),
    ensures
        final(a)@ == seq_wsub(old(a)@, b@),
{
    let n = a.len();
    let mut i: usize = 0;
    while i < n
        invariant
            i <= n,
            a@.len() == n,
            b@.len() == n,
            forall|j: int| 0 <= j < i ==> a@[j] == wsub(old(a)@[j], b@[j]),
            forall|j: int| i <= j < n ==> a@[j] == old(a)@[j],
        decreases n - i,
    {
        let x = a[i].wrapping_sub(b[i]);
        proof {
            assert(vstd::wrapping::u64_specs::wrapping_sub(a@[i as int], b@[i as int]) == wsub(
                a@[i as int],
                b@[i as int],
            ));
        }
        a.set(i, x);
        i = i + 1;
    }
    proof {
        assert(a@ =~= seq_wsub(old(a)@, b@));
    }
}

/// Multiply every coefficient by `c`, wrapping.
pub fn mul_const(poly: &mut Vec<Scalar>, c: Scalar)
    ensures
        final(poly)@ == seq_wscale(old(poly)@, c),
{
    let n = poly.len();
    let mut i: usize = 0;
    while i < n
        invariant
            i <= n,
            poly@.len() == n,
            forall|j: int| 0 <= j < i ==> poly@[j] == wmul(old(poly)@[j], c),
            forall|j: int| i <= j < n ==> poly@[j] == old(poly)@[j],
        decreases n - i,
    {
        let x = poly[i].wrapping_mul(c);
        proof {
            assert(vstd::wrapping::u64_specs::wrapping_mul(poly@[i as int], c) == wmul(
                poly@[i as int],
                c,
            ));
        }
        poly.set(i, x);
        i = i + 1;
    }
    proof {
        assert(poly@ =~= seq_wscale(old(poly)@, c));
    }
}

/// The value `(i - d) % (2n)` computed from `u = i + 2n - (d % 2n)`, which
/// stays in machine range.
proof fn lemma_mono_index(i: int, d: int, n: int)
    requires
        n >= 1,
        0 <= i < n,
        d >= 0,
    ensures
        (i - d) % (2 * n) == (if i + 2 * n - (d % (2 * n)) < 2 * n {
            i + 2 * n - (d % (2 * n))
        } else {
            i - (d % (2 * n))
        }),
{
    let m = 2 * n;
    let d2 = d % m;
    vstd::arithmetic::div_mod::lemma_fundamental_div_mod(d, m);
    assert(i - d == m * (-(d / m)) + (i - d2)) by {
        assert(d == m * (d / m) + d2);
        vstd::arithmetic::mul::lemma_mul_unary_negation(m, d / m);
    }
    lemma_mod_multiples_vanish(-(d / m), i - d2, m);
    lemma_mod_multiples_vanish(1, i - d2, m);
    lemma_mod_bound(d, m);
    let u = i + m - d2;
    if u < m {
        lemma_small_mod(u as nat, m as nat);
    } else {
        lemma_mod_multiples_vanish(1, u - m, m);
        lemma_small_mod((u - m) as nat, m as nat);
    }
}

/// Multiply `poly` in place by the monic monomial `X^degree`: rotate the
/// coefficients right by `degree`, flipping the sign on each pass across
/// `X^N`.
pub fn update_with_product_monomial(poly: &mut Vec<Scalar>, degree: usize)
    requires
        1 <= old(poly)@.len() <= 0x1000_0000,
    ensures
        final(poly)@ == mono_mul(old(poly)@, degree as int),
{
    let n = poly.len();
    let m = 2 * n;
    let d2 = degree % m;
    let mut out: Vec<Scalar> = Vec::new();
    let mut i: usize = 0;
    while i < n
        invariant
            n == old(poly)@.len(),
            poly@ == old(poly)@,
            m == 2 * n,
            n <= 0x1000_0000,
            d2 == degree % m,
            i <= n,
            out@.len() == i,
            forall|j: int| 0 <= j < i ==> out@[j] == mono_mul_coeff(old(poly)@, degree as int, j),
        decreases n - i,
    {
        proof {
            lemma_mono_index(i as int, degree as int, n as int);
            lemma_mod_bound(degree as int, m as int);
        }
        let u0 = i + m - d2;
        let u = if u0 < m {
            u0
        } else {
            u0 - m
        };
        let c = if u < n {
            poly[u]
        } else {
            0u64.wrapping_sub(poly[u - n])
        };
        proof {
            assert(c == mono_mul_coeff(old(poly)@, degree as int, i as int));
        }
        out.push(c);
        i = i + 1;
    }
    *poly = out;
    proof {
        assert(poly@ =~= mono_mul(old(poly)@, degree as int));
    }
}

/// Divide `poly` in place by the monic monomial `X^degree` (multiply by
/// `X^{-degree}`).
pub fn update_with_wrapping_unit_monomial_div(poly: &mut Vec<Scalar>, degree: usize)
    requires
        1 <= old(poly)@.len() <= 0x1000_0000,
    ensures
        final(poly)@ == mono_div(old(poly)@, degree as int),
{
    let n = poly.len();
    let m = 2 * n;
    let d2 = degree % m;
    let mut out: Vec<Scalar> = Vec::new();
    let mut i: usize = 0;
    while i < n
        invariant
            n == old(poly)@.len(),
            poly@ == old(poly)@,
            m == 2 * n,
            n <= 0x1000_0000,
            d2 == degree % m,
            i <= n,
            out@.len() == i,
            forall|j: int| 0 <= j < i ==> out@[j] == mono_div(old(poly)@, degree as int)[j],
        decreases n - i,
    {
        proof {
            let ii = i as int;
            let dd = degree as int;
            let mm = m as int;
            vstd::arithmetic::div_mod::lemma_fundamental_div_mod(dd, mm);
            assert(ii + dd == mm * (dd / mm) + (ii + (dd % mm)));
            lemma_mod_multiples_vanish(dd / mm, ii + (dd % mm), mm);
            lemma_mod_bound(dd, mm);
            let u = ii + (dd % mm);
            if u < mm {
                lemma_small_mod(u as nat, mm as nat);
            } else {
                lemma_mod_multiples_vanish(1, u - mm, mm);
                lemma_small_mod((u - mm) as nat, mm as nat);
            }
        }
        let u0 = i + d2;
        let u = if u0 < m {
            u0
        } else {
            u0 - m
        };
        let c = if u < n {
            poly[u]
        } else {
            0u64.wrapping_sub(poly[u - n])
        };
        out.push(c);
        i = i + 1;
    }
    *poly = out;
    proof {
        assert(poly@ =~= mono_div(old(poly)@, degree as int));
    }
}

/// Multiplying by `X^{d1}` and then by `X^{d2}` is multiplying by
/// `X^{d1 + d2}`: rotations by monic monomials compose additively.
pub proof fn lemma_product_monomial_compose(p: Seq<Scalar>, d1: int, d2: int)
    requires
        p.len() >= 1,
        d1 >= 0,
        d2 >= 0,
    ensures
        mono_mul(mono_mul(p, d1), d2) == mono_mul(p, d1 + d2),
{
    let n = p.len() as int;
    let m = 2 * n;
    let q1 = mono_mul(p, d1);
    assert forall|i: int| 0 <= i < n implies mono_mul(q1, d2)[i] == mono_mul(p, d1 + d2)[i] by {
        let t2 = (i - d2) % m;
        lemma_mod_bound(i - d2, m);
        vstd::arithmetic::div_mod::lemma_fundamental_div_mod(i - d2, m);
        let k = (i - d2) / m;
        // i - d2 - d1 == m * k + (t2 - d1)
        lemma_mod_multiples_vanish(k, t2 - d1, m);
        assert((i - d2 - d1) % m == (t2 - d1) % m);
        let tt = (i - (d1 + d2)) % m;
        lemma_mod_bound(i - (d1 + d2), m);
        if t2 < n {
            // first rotation reads directly from p at (t2 - d1) % m
            assert(mono_mul(q1, d2)[i] == q1[t2]);
            assert(q1[t2] == mono_mul_coeff(p, d1, t2));
            assert(tt == (t2 - d1) % m);
        } else {
            assert(mono_mul(q1, d2)[i] == wneg(q1[t2 - n]));
            let t1 = (t2 - n - d1) % m;
            lemma_mod_bound(t2 - n - d1, m);
            vstd::arithmetic::div_mod::lemma_fundamental_div_mod(t2 - n - d1, m);
            let k2 = (t2 - n - d1) / m;
            // t2 - d1 == m * k2 + (t1 + n)
            lemma_mod_multiples_vanish(k2, t1 + n, m);
            assert((t2 - d1) % m == (t1 + n) % m);
            if t1 < n {
                lemma_small_mod((t1 + n) as nat, m as nat);
                assert(tt == t1 + n);
                assert(mono_mul(p, d1 + d2)[i] == wneg(p[t1]));
                assert(q1[t2 - n] == p[t1]);
            } else {
                lemma_mod_multiples_vanish(1, t1 + n - m, m);
                lemma_small_mod((t1 + n - m) as nat, m as nat);
                assert(tt == t1 - n);
                assert(mono_mul(p, d1 + d2)[i] == p[t1 - n]);
                assert(q1[t2 - n] == wneg(p[t1 - n]));
                assert(wneg(wneg(p[t1 - n])) == p[t1 - n]);
            }
        }
    }
    assert(mono_mul(mono_mul(p, d1), d2) =~= mono_mul(p, d1 + d2));
}

/// Multiplying by `X^{2N}` is the identity.
pub proof fn lemma_product_monomial_identity(p: Seq<Scalar>)
    requires
        p.len() >= 1,
    ensures
        mono_mul(p, 2 * p.len() as int) == p,
{
    let n = p.len() as int;
    let m = 2 * n;
    assert forall|i: int| 0 <= i < n implies mono_mul(p, m)[i] == p[i] by {
        lemma_mod_multiples_vanish(1, i - m, m);
        lemma_small_mod(i as nat, m as nat);
        assert((i - m) % m == i);
    }
    assert(mono_mul(p, m) =~= p);
}

/// Multiplying by `X^N` negates every coefficient.
pub proof fn lemma_product_monomial_negate(p: Seq<Scalar>)
    requires
        p.len() >= 1,
    ensures
        mono_mul(p, p.len() as int) == seq_wneg(p),
{
    let n = p.len() as int;
    let m = 2 * n;
    assert forall|i: int| 0 <= i < n implies mono_mul(p, n)[i] == seq_wneg(p)[i] by {
        lemma_mod_multiples_vanish(1, i - n, m);
        lemma_small_mod((i + n) as nat, m as nat);
        assert((i - n) % m == i + n);
    }
    assert(mono_mul(p, n) =~= seq_wneg(p));
}

/// The negacyclic product, coefficient by coefficient: the inner loop folds
/// the signed contributions of `a_j * s_{i-j}` with wrapping arithmetic.
pub fn ncmul_exec(a: &Vec<Scalar>, s: &Vec<Scalar>) -> (r: Vec<Scalar>)
    requires
        a@.len() == s@.len(),
        1 <= a@.len() <= 0x1000_0000,
    ensures
        r@ == ncmul(a@, s@),
{
    let n = a.len();
    let mut out: Vec<Scalar> = Vec::new();
    let mut i: usize = 0;
    while i < n
        invariant
            n == a@.len(),
            n == s@.len(),
            n <= 0x1000_0000,
            i <= n,
            out@.len() == i,
            forall|j: int| 0 <= j < i ==> out@[j] == ncmul_coeff(a@, s@, j),
        decreases n - i,
    {
        let mut acc: u64 = 0;
        let mut j: usize = 0;
        proof {
            assert(nc_partial(a@, s@, i as int, 0) == 0);
            assert(0int % spec_q() == 0) by {
                lemma_small_mod(0nat, spec_q() as nat);
            }
        }
        while j < n
            invariant
                n == a@.len(),
                n == s@.len(),
                n <= 0x1000_0000,
                i < n,
                j <= n,
                acc == (nc_partial(a@, s@, i as int, j as int) % spec_q()) as Scalar,
            decreases n - j,
        {
            let ghost pj = nc_partial(a@, s@, i as int, j as int);
            if j <= i {
                let t = a[j].wrapping_mul(s[i - j]);
                let acc2 = acc.wrapping_add(t);
                proof {
                    assert(nc_partial(a@, s@, i as int, j + 1) == pj + nc_term(
                        a@,
                        s@,
                        i as int,
                        j as int,
                    ));
                    let prod = a@[j as int] * s@[i - j];
                    vstd::arithmetic::div_mod::lemma_add_mod_noop(pj, prod, spec_q());
                    vstd::arithmetic::div_mod::lemma_mod_twice(pj, spec_q());
                    vstd::arithmetic::div_mod::lemma_mod_twice(prod, spec_q());
                }
                acc = acc2;
            } else {
                let t = a[j].wrapping_mul(s[i + n - j]);
                let acc2 = acc.wrapping_sub(t);
                proof {
                    assert(nc_partial(a@, s@, i as int, j + 1) == pj + nc_term(
                        a@,
                        s@,
                        i as int,
                        j as int,
                    ));
                    let prod = a@[j as int] * s@[i + n - j];
                    vstd::arithmetic::div_mod::lemma_sub_mod_noop(pj, prod, spec_q());
                    vstd::arithmetic::div_mod::lemma_mod_twice(pj, spec_q());
                    vstd::arithmetic::div_mod::lemma_mod_twice(prod, spec_q());
                }
                acc = acc2;
            }
            j = j + 1;
        }
        out.push(acc);
        i = i + 1;
    }
    proof {
        assert(out@ =~= ncmul(a@, s@));
    }
    out
}

/// One signed contribution distributes over a wrapping sum of the left
/// operands, modulo `q`.
proof fn lemma_nc_term_linear(a1: Seq<Scalar>, a2: Seq<Scalar>, s: Seq<Scalar>, i: int, t: int)
    requires
        a1.len() == a2.len(),
        a1.len() == s.len(),
        0 <= t < a1.len(),
        0 <= i < a1.len(),
    ensures
        nc_term(seq_wadd(a1, a2), s, i, t) % spec_q() == (nc_term(a1, s, i, t) + nc_term(
            a2,
            s,
            i,
            t,
        )) % spec_q(),
{
    let q = spec_q();
    let u = a1[t];
    let v = a2[t];
    let w: Scalar = if t <= i {
        s[i - t]
    } else {
        s[i - t + a1.len()]
    };
    vstd::arithmetic::div_mod::lemma_mul_mod_noop_left(u + v, w as int, q);
    vstd::arithmetic::div_mod::lemma_mod_bound(u + v, q);
    assert(wadd(u, v) * w == ((u + v) % q) * w);
    vstd::arithmetic::mul::lemma_mul_is_distributive_add_other_way(w as int, u as int, v as int);
    if t <= i {
        assert(nc_term(seq_wadd(a1, a2), s, i, t) == wadd(u, v) * w);
        assert((wadd(u, v) * w) % q == ((u + v) * w) % q);
        assert((u + v) * w == u * w + v * w);
    } else {
        assert(nc_term(seq_wadd(a1, a2), s, i, t) == -(wadd(u, v) * w));
        assert((wadd(u, v) * w) % q == ((u + v) * w) % q);
        assert((u + v) * w == u * w + v * w);
        lemma_mod_eq_neg(wadd(u, v) * w, (u + v) * w, q);
    }
}

/// If `x` and `y` agree modulo `m`, so do `-x` and `-y`.
proof fn lemma_mod_eq_neg(x: int, y: int, m: int)
    requires
        m > 0,
        x % m == y % m,
    ensures
        (-x) % m == (-y) % m,
{
    vstd::arithmetic::div_mod::lemma_fundamental_div_mod(x, m);
    vstd::arithmetic::div_mod::lemma_fundamental_div_mod(y, m);
    let r = x % m;
    assert(-x == m * (-(x / m)) - r) by {
        vstd::arithmetic::mul::lemma_mul_unary_negation(m, x / m);
    }
    assert(-y == m * (-(y / m)) - r) by {
        vstd::arithmetic::mul::lemma_mul_unary_negation(m, y / m);
    }
    lemma_mod_multiples_vanish(-(x / m), -r, m);
    lemma_mod_multiples_vanish(-(y / m), -r, m);
}

/// Partial sums of the negacyclic product are additive in the left operand,
/// modulo `q`.
proof fn lemma_nc_partial_linear(a1: Seq<Scalar>, a2: Seq<Scalar>, s: Seq<Scalar>, i: int, j: int)
    requires
        a1.len() == a2.len(),
        a1.len() == s.len(),
        0 <= i < a1.len(),
        0 <= j <= a1.len(),
    ensures
        nc_partial(seq_wadd(a1, a2), s, i, j) % spec_q() == (nc_partial(a1, s, i, j) + nc_partial(
            a2,
            s,
            i,
            j,
        )) % spec_q(),
    decreases j,
{
    let q = spec_q();
    if j == 0 {
    } else {
        lemma_nc_partial_linear(a1, a2, s, i, j - 1);
        lemma_nc_term_linear(a1, a2, s, i, j - 1);
        let p12 = nc_partial(seq_wadd(a1, a2), s, i, j - 1);
        let t12 = nc_term(seq_wadd(a1, a2), s, i, j - 1);
        let p1 = nc_partial(a1, s, i, j - 1);
        let p2 = nc_partial(a2, s, i, j - 1);
        let t1 = nc_term(a1, s, i, j - 1);
        let t2 = nc_term(a2, s, i, j - 1);
        vstd::arithmetic::div_mod::lemma_add_mod_noop(p12, t12, q);
        vstd::arithmetic::div_mod::lemma_add_mod_noop(p1 + p2, t1 + t2, q);
        assert((p12 + t12) % q == ((p12 % q) + (t12 % q)) % q);
        assert(((p1 + p2) + (t1 + t2)) % q == (((p1 + p2) % q) + ((t1 + t2) % q)) % q);
        assert(nc_partial(seq_wadd(a1, a2), s, i, j) == p12 + t12);
        assert(nc_partial(a1, s, i, j) + nc_partial(a2, s, i, j) == (p1 + p2) + (t1 + t2));
    }
}

/// The negacyclic product distributes over wrapping addition in the left
/// operand.
pub proof fn lemma_ncmul_linear(a1: Seq<Scalar>, a2: Seq<Scalar>, s: Seq<Scalar>)
    requires
        a1.len() == a2.len(),
        a1.len() == s.len(),
        a1.len() >= 1,
    ensures
        ncmul(seq_wadd(a1, a2), s) == seq_wadd(ncmul(a1, s), ncmul(a2, s)),
{
    let q = spec_q();
    let n = a1.len() as int;
    assert forall|i: int| 0 <= i < n implies ncmul(seq_wadd(a1, a2), s)[i] == seq_wadd(
        ncmul(a1, s),
        ncmul(a2, s),
    )[i] by {
        lemma_nc_partial_linear(a1, a2, s, i, n);
        let p1 = nc_partial(a1, s, i, n);
        let p2 = nc_partial(a2, s, i, n);
        vstd::arithmetic::div_mod::lemma_add_mod_noop(p1, p2, q);
        vstd::arithmetic::div_mod::lemma_mod_bound(p1, q);
        vstd::arithmetic::div_mod::lemma_mod_bound(p2, q);
        assert(ncmul_coeff(seq_wadd(a1, a2), s, i) == ((p1 + p2) % q) as Scalar);
        assert(wadd(ncmul_coeff(a1, s, i), ncmul_coeff(a2, s, i)) == (((p1 % q) + (p2 % q))
            % q) as Scalar);
    }
    assert(ncmul(seq_wadd(a1, a2), s) =~= seq_wadd(ncmul(a1, s), ncmul(a2, s)));
}

/// The all-zero sequence of `n` coefficients.
pub open spec fn zero_seq(n: nat) -> Seq<Scalar> {
    Seq::new(n, |i: int| 0 as Scalar)
}

/// Multiplying the zero polynomial gives the zero polynomial.
pub proof fn lemma_ncmul_zero(s: Seq<Scalar>, n: nat)
    requires
        s.len() == n,
        n >= 1,
    ensures
        ncmul(zero_seq(n), s) == zero_seq(n),
{
    assert forall|i: int| 0 <= i < n implies ncmul(zero_seq(n), s)[i] == 0 by {
        lemma_nc_partial_zero(s, n, i, n as int);
        lemma_small_mod(0nat, spec_q() as nat);
    }
    assert(ncmul(zero_seq(n), s) =~= zero_seq(n));
}

/// Partial sums over the zero polynomial vanish.
proof fn lemma_nc_partial_zero(s: Seq<Scalar>, n: nat, i: int, j: int)
    requires
        s.len() == n,
        n >= 1,
        0 <= i < n,
        0 <= j <= n,
    ensures
        nc_partial(zero_seq(n), s, i, j) == 0,
    decreases j,
{
    if j > 0 {
        lemma_nc_partial_zero(s, n, i, j - 1);
        assert(nc_term(zero_seq(n), s, i, j - 1) == 0) by {
            assert(zero_seq(n)[j - 1] == 0);
            vstd::arithmetic::mul::lemma_mul_by_zero_is_zero(
                if j - 1 <= i { s[i - (j - 1)] as int } else { s[i - (j - 1) + n] as int },
            );
        }
    }
}

} // verus!

