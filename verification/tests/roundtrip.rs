use mfhebrk::lwe::{LWECiphertext, LWEPublicKey, LWESecretKey};
use mfhebrk::rlwe::{compute_noise, compute_noise_binary, RLWECiphertext, RLWEPublicKey, RLWESecretKey};
use mfhebrk::Context;

fn small_ctx(seed: u64) -> Context {
    Context::custom(256, 4, 15, 13, 3, 25, 2, 30, 2, 8, 17, 2, 3, 3, 3, seed)
}

#[test]
fn rlwe_binary_round_trip_sk() {
    let mut ctx = small_ctx(1);
    let sk = RLWESecretKey::generate_binary(ctx.poly_size, &mut ctx.secret_generator);
    let pt = ctx.gen_binary_pt();
    let mut ct = RLWECiphertext::allocate(ctx.poly_size);
    sk.binary_encrypt_rlwe(&mut ct, &pt, &mut ctx);
    let mut out = ctx.gen_zero_pt();
    sk.binary_decrypt_rlwe(&mut out, &ct);
    assert_eq!(out, pt);
}

#[test]
fn rlwe_ternary_round_trip_sk() {
    let mut ctx = small_ctx(2);
    let sk = RLWESecretKey::generate_binary(ctx.poly_size, &mut ctx.secret_generator);
    let pt = ctx.gen_ternary_ptxt();
    let mut ct = RLWECiphertext::allocate(ctx.poly_size);
    sk.ternary_encrypt_rlwe(&mut ct, &pt, &mut ctx);
    let mut out = ctx.gen_zero_pt();
    sk.ternary_decrypt_rlwe(&mut out, &ct);
    assert_eq!(out, pt);
}

#[test]
fn lwe_binary_round_trip_sk() {
    let mut ctx = small_ctx(3);
    let sk = LWESecretKey::generate_binary(16, &mut ctx.secret_generator);
    for bit in [0u64, 1u64] {
        let mut ct = LWECiphertext::allocate(17);
        sk.binary_encrypt_lwe(&mut ct, bit, &mut ctx);
        let mut out: u64 = 0;
        sk.binary_decrypt_lwe(&mut out, &ct);
        assert_eq!(out, bit);
    }
}

/// Shared-mask RLWE public key: every party contributes a body over the same
/// mask; encryption under the joint key decrypts under the joint secret.
#[test]
fn rlwe_public_key_round_trip() {
    let mut ctx = small_ctx(4);
    let n = ctx.poly_size;
    let m = ctx.m;
    let k = ctx.k;

    let mask_sk = RLWESecretKey::generate_binary(n, &mut ctx.secret_generator);
    let mut global_pk = RLWEPublicKey::allocate(n, m);
    let mut global_sk = RLWESecretKey::zero(n);
    mask_sk.generate_mask(&mut global_pk, &mut ctx);

    for _ in 0..k {
        let sk = RLWESecretKey::generate_binary(n, &mut ctx.secret_generator);
        let mut pk = RLWEPublicKey::allocate(n, m);
        pk.update_with_global_mask(&global_pk, &ctx);
        assert!(global_pk.compare_mask(&pk, m));
        let noise = ctx.std_rlwe;
        sk.fill_rlwe_pk(&mut pk, noise, &mut ctx.encryption_generator, m);
        global_pk.update_body_with_pk(&pk, &ctx);
        global_sk.update_with_wrapping_add(&sk);
    }

    let pt = ctx.gen_binary_pt();
    let mut encoded = pt.clone();
    mfhebrk::poly_binary_encode(&mut encoded);
    let mut ct = RLWECiphertext::allocate(n);
    global_pk.encrypt_rlwe(&mut ct, &encoded, &mut ctx.secret_generator, m);

    let mut out = ctx.gen_zero_pt();
    global_sk.binary_decrypt_rlwe(&mut out, &ct);
    assert_eq!(out, pt);
}

/// Setup at the specified sizes (degree 2048, dimension 494, four parties):
/// encrypting 0 and 1 under the shared LWE public key and adding a fresh
/// encryption of 0 still decrypts to 0 and 1.
#[test]
fn lwe_public_key_setup_full_size() {
    let mut ctx = Context::custom(
        2048, 4, 15, 13, 3, 10, 5, 30, 2, 192, 495, 4, 9, 17, 5, 5,
    );
    let n = ctx.glwe_size - 1; // LWE dimension 494
    let m = ctx.m;
    let k = ctx.k;

    let mask_sk = LWESecretKey::generate_binary(n, &mut ctx.secret_generator);
    let mut global_pk = LWEPublicKey::allocate(n + 1, m);
    let mut global_sk = LWESecretKey::zero(n);
    mask_sk.generate_mask(&mut global_pk, &mut ctx);

    for _ in 0..k {
        let sk = LWESecretKey::generate_binary(n, &mut ctx.secret_generator);
        let mut pk = LWEPublicKey::allocate(n + 1, m);
        pk.update_with_global_mask(&global_pk, &ctx);
        assert!(global_pk.compare_mask(&pk, m));
        let noise = ctx.std_lwe;
        sk.fill_lwe_pk(&mut pk, noise, &mut ctx.encryption_generator, m);
        global_pk.update_body_with_pk(&pk, &ctx);
        global_sk.update_with_wrapping_add(&sk);
    }

    for bit in [0u64, 1u64] {
        let mut encoded = bit;
        mfhebrk::binary_encode(&mut encoded);
        let mut ct = LWECiphertext::allocate(n + 1);
        global_pk.encrypt_lwe(&mut ct, encoded, &mut ctx.secret_generator, m);

        // a single homomorphic add of a fresh encryption of zero
        let mut zero_ct = LWECiphertext::allocate(n + 1);
        global_pk.encrypt_lwe(&mut zero_ct, 0, &mut ctx.secret_generator, m);
        ct.update_with_add(zero_ct);

        let mut out: u64 = 0;
        global_sk.binary_decrypt_lwe(&mut out, &ct);
        assert_eq!(out, bit);
    }
}

/// Additive homomorphism: the decryption of a sum is the sum of the
/// decryptions, in `Z_q`.
#[test]
fn rlwe_additive_homomorphism() {
    let mut ctx = small_ctx(5);
    let n = ctx.poly_size;
    let sk = RLWESecretKey::generate_binary(n, &mut ctx.secret_generator);

    let pt1 = ctx.gen_binary_pt();
    let pt2 = ctx.gen_binary_pt();
    let noise = ctx.std;
    let mut ct1 = RLWECiphertext::allocate(n);
    sk.encrypt_rlwe(&mut ct1, &pt1, noise, &mut ctx.encryption_generator);
    let mut ct2 = RLWECiphertext::allocate(n);
    sk.encrypt_rlwe(&mut ct2, &pt2, noise, &mut ctx.encryption_generator);

    let mut d1 = ctx.gen_zero_pt();
    sk.decrypt_rlwe(&mut d1, &ct1);
    let mut d2 = ctx.gen_zero_pt();
    sk.decrypt_rlwe(&mut d2, &ct2);

    let mut sum_ct = RLWECiphertext::allocate(n);
    sum_ct.fill_with_copy(&ct1);
    sum_ct.update_with_add(&ct2);
    let mut dsum = ctx.gen_zero_pt();
    sk.decrypt_rlwe(&mut dsum, &sum_ct);

    for i in 0..n {
        assert_eq!(dsum[i], d1[i].wrapping_add(d2[i]));
    }
}

/// The noise helper reports the worst-case error, and a deliberately
/// over-noised ciphertext (noise width doubled) exceeds the tolerance that a
/// ciphertext at the configured width stays under.
#[test]
fn noise_helper_flags_over_noised_input() {
    let mut ctx = small_ctx(6);
    let n = ctx.poly_size;
    let sk = RLWESecretKey::generate_binary(n, &mut ctx.secret_generator);
    let pt = ctx.gen_binary_pt();

    let base_bits = 40u64;
    let mut ct = RLWECiphertext::allocate(n);
    sk.binary_encrypt_rlwe_with_noise(&mut ct, &pt, &mut ctx, base_bits);
    let noise_lo = compute_noise_binary(&sk, &ct, &pt);
    assert!(noise_lo <= 1u64 << base_bits);

    // doubled width: one extra bit of noise magnitude
    let mut noisy_ct = RLWECiphertext::allocate(n);
    sk.binary_encrypt_rlwe_with_noise(&mut noisy_ct, &pt, &mut ctx, base_bits + 1);
    let noise_hi = compute_noise_binary(&sk, &noisy_ct, &pt);
    assert!(noise_hi > 1u64 << base_bits);

    // and the generic helper agrees with the binary one
    let mut encoded = pt.clone();
    mfhebrk::poly_binary_encode(&mut encoded);
    assert_eq!(compute_noise(&sk, &noisy_ct, &encoded), noise_hi);
}
