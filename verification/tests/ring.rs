use mfhebrk::poly::{
    mul_const, ncmul_exec, update_with_product_monomial,
    update_with_wrapping_add, update_with_wrapping_sub, update_with_wrapping_unit_monomial_div,
};
use mfhebrk::rlwe::pbs_modulus_switch;

fn sample_poly(n: usize, seed: u64) -> Vec<u64> {
    let mut v = Vec::new();
    let mut s = seed;
    for _ in 0..n {
        s = s.wrapping_mul(6364136223846793005).wrapping_add(1442695040888963407);
        v.push(s);
    }
    v
}

#[test]
fn product_monomial_composes() {
    let n = 32;
    for (d1, d2) in [(3usize, 5usize), (17, 40), (31, 33), (0, 7), (64, 3)] {
        let p = sample_poly(n, 7);
        let mut a = p.clone();
        update_with_product_monomial(&mut a, d1);
        update_with_product_monomial(&mut a, d2);
        let mut b = p.clone();
        update_with_product_monomial(&mut b, d1 + d2);
        assert_eq!(a, b);
    }
}

#[test]
fn product_monomial_full_cycle_is_identity() {
    let n = 32;
    let p = sample_poly(n, 11);
    let mut a = p.clone();
    update_with_product_monomial(&mut a, 2 * n);
    assert_eq!(a, p);
}

#[test]
fn product_monomial_half_cycle_negates() {
    let n = 32;
    let p = sample_poly(n, 13);
    let mut a = p.clone();
    update_with_product_monomial(&mut a, n);
    for i in 0..n {
        assert_eq!(a[i], p[i].wrapping_neg());
    }
}

#[test]
fn monomial_mul_div_cancel() {
    let n = 32;
    let p = sample_poly(n, 17);
    let mut a = p.clone();
    update_with_product_monomial(&mut a, 13);
    update_with_wrapping_unit_monomial_div(&mut a, 13);
    assert_eq!(a, p);
}

#[test]
fn wrapping_add_sub_cancel() {
    let n = 16;
    let p = sample_poly(n, 19);
    let q = sample_poly(n, 23);
    let mut a = p.clone();
    update_with_wrapping_add(&mut a, &q);
    update_with_wrapping_sub(&mut a, &q);
    assert_eq!(a, p);
}

#[test]
fn ncmul_matches_schoolbook_small() {
    // (1 + 2X) * (3 + X) = 3 + 7X + 2X^2 in Z_q[X]/(X^4+1)
    let a = vec![1u64, 2, 0, 0];
    let s = vec![3u64, 1, 0, 0];
    let r = ncmul_exec(&a, &s);
    assert_eq!(r, vec![3, 7, 2, 0]);
}

#[test]
fn ncmul_negacyclic_wrap() {
    // X^3 * X = X^4 = -1 in Z_q[X]/(X^4+1)
    let a = vec![0u64, 0, 0, 1];
    let s = vec![0u64, 1, 0, 0];
    let r = ncmul_exec(&a, &s);
    assert_eq!(r, vec![1u64.wrapping_neg(), 0, 0, 0]);
}

#[test]
fn ncmul_distributes_over_add() {
    let n = 16;
    let a1 = sample_poly(n, 29);
    let a2 = sample_poly(n, 31);
    let s = sample_poly(n, 37);
    let mut sum = a1.clone();
    update_with_wrapping_add(&mut sum, &a2);
    let left = ncmul_exec(&sum, &s);
    let r1 = ncmul_exec(&a1, &s);
    let mut right = r1.clone();
    let r2 = ncmul_exec(&a2, &s);
    update_with_wrapping_add(&mut right, &r2);
    assert_eq!(left, right);
}

#[test]
fn scalar_mul_wraps() {
    let mut v = vec![1u64 << 63, 3];
    mul_const(&mut v, 2);
    assert_eq!(v, vec![0, 6]);
}

#[test]
fn modulus_switch_of_zero_is_zero() {
    assert_eq!(pbs_modulus_switch(0, 2048), 0);
    assert_eq!(pbs_modulus_switch(0, 256), 0);
}

#[test]
fn modulus_switch_monotone() {
    let n = 2048usize;
    let mut prev = 0usize;
    let step = u64::MAX / 1000;
    for i in 0..1000u64 {
        let x = i.wrapping_mul(step);
        let r = pbs_modulus_switch(x, n);
        assert!(r >= prev);
        prev = r;
    }
}

#[test]
fn modulus_switch_maps_roots() {
    // multiples of q/(2N) map exactly onto the 2N-th roots
    let n = 2048usize;
    let step = 1u64 << (63 - 11); // q / (2 * 2048)
    for j in [0u64, 1, 2, 100, 4095] {
        let x = j.wrapping_mul(step);
        assert_eq!(pbs_modulus_switch(x, n), j as usize);
    }
}

#[test]
fn modulus_switch_rounds_half_up() {
    let n = 2048usize;
    let step = 1u64 << 52; // q / (2 * 2048)
    // just below half a step rounds down, half a step rounds up
    assert_eq!(pbs_modulus_switch(step / 2 - 1, n), 0);
    assert_eq!(pbs_modulus_switch(step / 2, n), 1);
    assert_eq!(pbs_modulus_switch(step, n), 1);
}
