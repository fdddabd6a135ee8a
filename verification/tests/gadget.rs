use mfhebrk::lwe::{constant_sample_extract, conv_lwe_to_rlwe, LWECiphertext, LWEKeyswitchKey,
    LWESecretKey, LWEtoRLWEKeyswitchKey};
use mfhebrk::rgsw::{closest_representable, decompose, RGSWCiphertext};
use mfhebrk::rlwe::{compute_noise_binary, RLWECiphertext, RLWESecretKey};
use mfhebrk::Context;

fn small_ctx(seed: u64) -> Context {
    Context::custom(128, 4, 15, 13, 3, 12, 4, 30, 2, 8, 17, 2, 3, 3, 3, seed)
}

#[test]
fn decompose_reconstructs_exact_values() {
    // base 2^12, 4 levels: 48 bits of precision, deltas 2^52 .. 2^16
    let base_log = 12usize;
    let levels = 4usize;
    let x: u64 = 0x0123_4567_89AB_0000;
    let digits = decompose(x, base_log, levels);
    assert_eq!(digits.len(), levels);
    // every digit is balanced
    for d in &digits {
        let signed = *d as i64;
        assert!(signed.unsigned_abs() <= 1 << (base_log - 1));
    }
    // reconstruction: digits are least-significant level first, so the digit
    // at index i carries weight 2^(64 - base_log*(levels - i))
    let mut acc: u64 = 0;
    for (i, d) in digits.iter().enumerate() {
        let shift = 64 - base_log * (levels - i);
        acc = acc.wrapping_add(d.wrapping_mul(1u64 << shift));
    }
    assert_eq!(acc, closest_representable(x, base_log, levels));
    assert_eq!(acc, x); // x has no unrepresentable low bits
}

#[test]
fn closest_representable_rounds() {
    let base_log = 12usize;
    let levels = 4usize;
    // 16 unrepresentable low bits
    let x: u64 = (1 << 16) * 5 + (1 << 15); // exactly half: rounds up
    assert_eq!(closest_representable(x, base_log, levels), (1 << 16) * 6);
    let y: u64 = (1 << 16) * 5 + (1 << 15) - 1;
    assert_eq!(closest_representable(y, base_log, levels), (1 << 16) * 5);
}

/// External product: an RGSW encryption of the constant 1 times an RLWE
/// encryption of `m` decrypts to `m`, with noise below the declared bound.
#[test]
fn external_product_times_one() {
    let mut ctx = small_ctx(21);
    let n = ctx.poly_size;
    let sk = RLWESecretKey::generate_binary(n, &mut ctx.secret_generator);

    let mut g = RGSWCiphertext::allocate(n, ctx.rgsw_base_log, ctx.rgsw_level_count);
    sk.encrypt_constant_rgsw(&mut g, 1, &mut ctx);

    let pt = ctx.gen_binary_pt();
    let mut c = RLWECiphertext::allocate(n);
    sk.binary_encrypt_rlwe(&mut c, &pt, &mut ctx);

    let mut out = RLWECiphertext::allocate(n);
    g.external_product(&mut out, &c);

    let mut decoded = ctx.gen_zero_pt();
    sk.binary_decrypt_rlwe(&mut decoded, &out);
    assert_eq!(decoded, pt);

    // the declared noise budget for these gadget parameters
    let noise = compute_noise_binary(&sk, &out, &pt);
    assert!(noise < 1u64 << 40);
}

/// Internal product: RGSW(1) * RGSW(m) still external-multiplies like
/// RGSW(m): its product with an encryption of a plaintext keeps it.
#[test]
fn internal_product_keeps_plaintext() {
    let mut ctx = small_ctx(22);
    let n = ctx.poly_size;
    let sk = RLWESecretKey::generate_binary(n, &mut ctx.secret_generator);

    let mut one = RGSWCiphertext::allocate(n, ctx.rgsw_base_log, ctx.rgsw_level_count);
    sk.encrypt_constant_rgsw(&mut one, 1, &mut ctx);
    let mut gm = RGSWCiphertext::allocate(n, ctx.rgsw_base_log, ctx.rgsw_level_count);
    sk.encrypt_constant_rgsw(&mut gm, 1, &mut ctx);

    let mut prod = RGSWCiphertext::allocate(n, ctx.rgsw_base_log, ctx.rgsw_level_count);
    one.internal_product(&mut prod, &gm, &ctx);

    let pt = ctx.gen_binary_pt();
    let mut c = RLWECiphertext::allocate(n);
    sk.binary_encrypt_rlwe(&mut c, &pt, &mut ctx);
    let mut out = RLWECiphertext::allocate(n);
    prod.external_product(&mut out, &c);

    let mut decoded = ctx.gen_zero_pt();
    sk.binary_decrypt_rlwe(&mut decoded, &out);
    assert_eq!(decoded, pt);
}

/// Sample extraction: the extracted LWE ciphertext decrypts, under the ring
/// key read as an LWE key, to the constant coefficient of the ring phase.
#[test]
fn sample_extract_constant_coefficient() {
    let mut ctx = small_ctx(23);
    let n = ctx.poly_size;
    let sk = RLWESecretKey::generate_binary(n, &mut ctx.secret_generator);
    let pt = ctx.gen_binary_pt();
    let mut c = RLWECiphertext::allocate(n);
    sk.binary_encrypt_rlwe(&mut c, &pt, &mut ctx);

    let mut lwe = LWECiphertext::allocate(n + 1);
    constant_sample_extract(&mut lwe, &c);

    let lwe_key = sk.to_lwe_secretkey();
    let mut out: u64 = 0;
    lwe_key.binary_decrypt_lwe(&mut out, &lwe);
    assert_eq!(out, pt[0]);
}

/// LWE-to-LWE key switching: a ciphertext under a large key switches to the
/// small key and still decodes to the same bit.
#[test]
fn lwe_keyswitch_round_trip() {
    let mut ctx = small_ctx(24);
    let big = LWESecretKey::generate_binary(ctx.poly_size, &mut ctx.secret_generator);
    let small = LWESecretKey::generate_binary(16, &mut ctx.secret_generator);

    let mut ksk = LWEKeyswitchKey::allocate(ctx.poly_size, 16, &ctx);
    ksk.fill_with_keyswitching_key(&big, &small, &mut ctx);

    for bit in [0u64, 1u64] {
        let mut ct = LWECiphertext::allocate(ctx.poly_size + 1);
        big.binary_encrypt_lwe(&mut ct, bit, &mut ctx);
        let mut switched = LWECiphertext::allocate(17);
        ksk.keyswitch_ciphertext(&mut switched, &ct);
        let mut out: u64 = 0;
        small.binary_decrypt_lwe(&mut out, &switched);
        assert_eq!(out, bit);
    }
}

/// LWE-to-RLWE conversion: an LWE ciphertext at ring dimension converts to a
/// ring ciphertext whose constant coefficient decodes to the same bit.
#[test]
fn lwe_to_rlwe_conversion() {
    let mut ctx = small_ctx(25);
    let n = ctx.poly_size;
    let lwe_key = LWESecretKey::generate_binary(n, &mut ctx.secret_generator);

    let mut ksks = LWEtoRLWEKeyswitchKey::allocate(&ctx);
    ksks.fill_with_keyswitching_key(&lwe_key, &mut ctx);

    for bit in [0u64, 1u64] {
        let mut ct = LWECiphertext::allocate(n + 1);
        lwe_key.binary_encrypt_lwe(&mut ct, bit, &mut ctx);
        let rlwe_ct = conv_lwe_to_rlwe(&ksks, &ct, &ctx);

        let rlwe_key = lwe_key.to_rlwe_sk();
        let mut out = ctx.gen_zero_pt();
        rlwe_key.binary_decrypt_rlwe(&mut out, &rlwe_ct);
        assert_eq!(out[0], bit);
    }
}

/// The 32-bit modulus switch rounds each component half up to the nearer
/// multiple of `2^32` and keeps the high word.
#[test]
fn mod_switch_32_rounds_half_up() {
    let ct = LWECiphertext { mask: vec![5 * (1u64 << 32) + (1 << 31), 5 * (1u64 << 32) + (1 << 31) - 1], body: u64::MAX };
    let switched = mfhebrk::lwe::mod_switch_32(&ct);
    assert_eq!(switched.mask, vec![6, 5]);
    // a body near q rounds to 2^32, which wraps to 0
    assert_eq!(switched.body, 0);
}

/// A refreshed gate ciphertext survives the narrowing stage: switching to 32
/// bits and decrypting there still decodes to the bit.
#[test]
fn mod_switch_32_keeps_gate_bit() {
    let mut ctx = small_ctx(26);
    let sk = LWESecretKey::generate_binary(16, &mut ctx.secret_generator);
    for bit in [0u64, 1u64] {
        let mut pt = bit;
        mfhebrk::encode_gate(&mut pt);
        let mut ct = LWECiphertext::allocate(17);
        let noise = ctx.std;
        sk.encrypt_lwe(&mut ct, pt, noise, &mut ctx.encryption_generator);

        let switched = mfhebrk::lwe::mod_switch_32(&ct);
        let mut out: u32 = 0;
        sk.decrypt_lwe32(&mut out, &switched);
        mfhebrk::encode_accumulator32(&mut out);
        mfhebrk::decode_gate32(&mut out);
        assert_eq!(out as u64, bit);
    }
}

/// A gadget that covers the whole word (base 2^32, two levels) decomposes
/// without any rounding: the digits reconstruct the value exactly.
#[test]
fn decompose_full_word_gadget() {
    let base_log = 32usize;
    let levels = 2usize;
    let x: u64 = 0xDEAD_BEEF_0123_4567;
    let digits = decompose(x, base_log, levels);
    assert_eq!(digits.len(), levels);
    assert_eq!(closest_representable(x, base_log, levels), x);
    let mut acc: u64 = 0;
    for (i, d) in digits.iter().enumerate() {
        let shift = 64 - base_log * (levels - i);
        acc = acc.wrapping_add(d.wrapping_mul(1u64 << shift));
    }
    assert_eq!(acc, x);
}

/// The external product still decrypts correctly at the full-word gadget.
#[test]
fn external_product_full_word_gadget() {
    let mut ctx = Context::custom(128, 4, 15, 13, 3, 32, 2, 30, 2, 8, 17, 2, 3, 3, 3, 27);
    let n = ctx.poly_size;
    let sk = RLWESecretKey::generate_binary(n, &mut ctx.secret_generator);

    let mut g = RGSWCiphertext::allocate(n, ctx.rgsw_base_log, ctx.rgsw_level_count);
    sk.encrypt_constant_rgsw(&mut g, 1, &mut ctx);

    let pt = ctx.gen_binary_pt();
    let mut c = RLWECiphertext::allocate(n);
    sk.binary_encrypt_rlwe(&mut c, &pt, &mut ctx);

    let mut out = RLWECiphertext::allocate(n);
    g.external_product(&mut out, &c);

    let mut decoded = ctx.gen_zero_pt();
    sk.binary_decrypt_rlwe(&mut decoded, &out);
    assert_eq!(decoded, pt);
}
