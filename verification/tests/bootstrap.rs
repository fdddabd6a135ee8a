use mfhebrk::lwe::{
    bootstrap, constant_sample_extract, homomorphic_indicator, LWECiphertext, LWEKeyswitchKey,
    LWESecretKey,
};
use mfhebrk::rgsw::RGSWCiphertext;
use mfhebrk::rlwe::{RLWECiphertext, RLWESecretKey};
use mfhebrk::{decode_gate, encode_accumulator, encode_gate, Context, GATE_DELTA};

const LWE_DIM: usize = 16;

fn gate_ctx(seed: u64) -> Context {
    Context::custom(128, 4, 15, 13, 3, 12, 4, 30, 2, 8, LWE_DIM + 1, 2, 3, 3, 3, seed)
}

struct Setup {
    ctx: Context,
    global_lwe_sk: LWESecretKey,
    global_rlwe_sk: RLWESecretKey,
    bsk: Vec<Vec<RGSWCiphertext>>,
    ksk: LWEKeyswitchKey,
}

/// The multi-party setup: per-party LWE and RLWE shares, a bootstrapping key
/// built through the homomorphic indicator over the shares' bits, and the
/// key-switching key that closes the cycle.
fn setup(seed: u64) -> Setup {
    let mut ctx = gate_ctx(seed);
    let n = ctx.poly_size;
    let k = ctx.k;

    let mut lwe_shares: Vec<LWESecretKey> = Vec::new();
    let mut global_lwe_sk = LWESecretKey::zero(LWE_DIM);
    let mut global_rlwe_sk = RLWESecretKey::zero(n);
    for _ in 0..k {
        let lwe_sk = LWESecretKey::generate_binary(LWE_DIM, &mut ctx.secret_generator);
        let rlwe_sk = RLWESecretKey::generate_binary(n, &mut ctx.secret_generator);
        global_lwe_sk.update_with_wrapping_add(&lwe_sk);
        global_rlwe_sk.update_with_wrapping_add(&rlwe_sk);
        lwe_shares.push(lwe_sk);
    }

    let mut bsk: Vec<Vec<RGSWCiphertext>> = Vec::new();
    for pos in 0..LWE_DIM {
        let mut c: Vec<RGSWCiphertext> = Vec::new();
        for share in lwe_shares.iter() {
            let bit = share.as_tensor()[pos];
            let ptxt = mfhebrk::plaintext_index(0, bit, &ctx);
            let mut ct = RGSWCiphertext::allocate(n, ctx.rgsw_base_log, ctx.rgsw_level_count);
            global_rlwe_sk.encrypt_wrapping_rgsw(&mut ct, &ptxt, &mut ctx);
            c.push(ct);
        }
        let l = homomorphic_indicator(&global_rlwe_sk, c, &mut ctx);
        bsk.push(l);
    }

    let extracted = global_rlwe_sk.to_lwe_secretkey();
    let mut ksk = LWEKeyswitchKey::allocate(n, LWE_DIM, &ctx);
    ksk.fill_with_keyswitching_key(&extracted, &global_lwe_sk, &mut ctx);

    Setup { ctx, global_lwe_sk, global_rlwe_sk, bsk, ksk }
}

/// The NAND accumulator: the constant look-up table with every body
/// coefficient at `q/8`.
fn gate_accumulator(n: usize) -> RLWECiphertext {
    let mut acc = RLWECiphertext::allocate(n);
    let lut = vec![GATE_DELTA; n];
    acc.update_body_with_add(&lut);
    acc
}

fn copy_lwe(c: &LWECiphertext) -> LWECiphertext {
    LWECiphertext { mask: c.mask.clone(), body: c.body }
}

/// One full NAND: combine the two input ciphertexts, blind-rotate, extract
/// the constant sample and switch back to the joint LWE key.
fn nand(s: &mut Setup, c1: &LWECiphertext, c2: &LWECiphertext) -> LWECiphertext {
    let mut lwe_ct = LWECiphertext::allocate(LWE_DIM + 1);
    lwe_ct.update_with_sub(copy_lwe(c1));
    lwe_ct.update_with_sub(copy_lwe(c2));
    let mut constant: u64 = 1;
    encode_gate(&mut constant);
    let body = lwe_ct.get_body().wrapping_add(constant);
    lwe_ct.set_body(body);

    let n = s.ctx.poly_size;
    let mut accumulator = gate_accumulator(n);
    let out_rlwe = bootstrap(&lwe_ct, &mut accumulator, &s.bsk, &mut s.ctx);

    let mut lwe_out = LWECiphertext::allocate(n + 1);
    constant_sample_extract(&mut lwe_out, &out_rlwe);

    let mut switched = LWECiphertext::allocate(LWE_DIM + 1);
    s.ksk.keyswitch_ciphertext(&mut switched, &lwe_out);
    switched
}

fn encrypt_gate_bit(s: &mut Setup, bit: u64) -> LWECiphertext {
    let mut pt = bit;
    encode_gate(&mut pt);
    let mut ct = LWECiphertext::allocate(LWE_DIM + 1);
    let noise = s.ctx.std;
    s.global_lwe_sk.encrypt_lwe(&mut ct, pt, noise, &mut s.ctx.encryption_generator);
    ct
}

fn decrypt_gate_bit(s: &Setup, ct: &LWECiphertext) -> u64 {
    let mut out: u64 = 0;
    s.global_lwe_sk.decrypt_wrapping_lwe(&mut out, ct);
    encode_accumulator(&mut out);
    decode_gate(&mut out);
    out
}

/// NAND on (1,1) is 0, computed through the full bootstrap cycle.
#[test]
fn nand_one_one_is_zero() {
    let mut s = setup(41);
    let c1 = encrypt_gate_bit(&mut s, 1);
    let c2 = encrypt_gate_bit(&mut s, 1);
    let out = nand(&mut s, &c1, &c2);
    assert_eq!(decrypt_gate_bit(&s, &out), 0);
}

/// NAND on (0,1) is 1.
#[test]
fn nand_zero_one_is_one() {
    let mut s = setup(42);
    let c1 = encrypt_gate_bit(&mut s, 0);
    let c2 = encrypt_gate_bit(&mut s, 1);
    let out = nand(&mut s, &c1, &c2);
    assert_eq!(decrypt_gate_bit(&s, &out), 1);
}

/// Chained bootstrapping stays correct: NAND(x, x) = NOT x, iterated fifty
/// times from a fresh encryption of 1, alternates exactly.
#[test]
fn bootstrap_chain_fifty_rounds() {
    let mut s = setup(43);
    let mut ct = encrypt_gate_bit(&mut s, 1);
    let mut expected: u64 = 1;
    for _ in 0..50 {
        ct = nand(&mut s, &copy_lwe(&ct), &copy_lwe(&ct));
        expected = 1 - expected;
        assert_eq!(decrypt_gate_bit(&s, &ct), expected);
    }
}

/// The homomorphic indicator on bits (1,0,1,0) with four parties places the
/// encryption of 1 at the Hamming-weight position: decrypting the length-5
/// output yields (0,0,1,0,0).
#[test]
fn indicator_places_one_at_hamming_weight() {
    let mut ctx = Context::custom(128, 4, 15, 13, 3, 12, 4, 30, 2, 8, 17, 4, 3, 3, 3, 44);
    let n = ctx.poly_size;
    let sk = RLWESecretKey::generate_binary(n, &mut ctx.secret_generator);

    let bits = [1u64, 0, 1, 0];
    let mut c: Vec<RGSWCiphertext> = Vec::new();
    for b in bits {
        let ptxt = mfhebrk::plaintext_index(0, b, &ctx);
        let mut ct = RGSWCiphertext::allocate(n, ctx.rgsw_base_log, ctx.rgsw_level_count);
        sk.encrypt_wrapping_rgsw(&mut ct, &ptxt, &mut ctx);
        c.push(ct);
    }
    let l = homomorphic_indicator(&sk, c, &mut ctx);
    assert_eq!(l.len(), 5);

    let mut decoded: Vec<u64> = Vec::new();
    for entry in l.iter() {
        let row = entry.get_nth_row(1);
        let mut pt = ctx.gen_zero_pt();
        sk.decrypt_wrapping_rlwe(&mut pt, &row);
        mfhebrk::poly_decode(&mut pt, &ctx);
        decoded.push(pt[0]);
    }
    assert_eq!(decoded, vec![0, 0, 1, 0, 0]);
}
