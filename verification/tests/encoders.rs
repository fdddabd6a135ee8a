use mfhebrk::{
    binary_decode, binary_encode, decode_gate, decode_gate32, encode_accumulator,
    encode_accumulator32, encode_gate, encode_gate32, ternary_decode, ternary_encode,
};

#[test]
fn binary_encode_exact_values() {
    let mut x: u64 = 0;
    binary_encode(&mut x);
    assert_eq!(x, 0);
    let mut y: u64 = 1;
    binary_encode(&mut y);
    assert_eq!(y, 0x8000_0000_0000_0000);
}

#[test]
fn binary_decode_buckets() {
    let mut x: u64 = 0x8000_0000_0000_0000;
    binary_decode(&mut x);
    assert_eq!(x, 1);
    let mut y: u64 = 0;
    binary_decode(&mut y);
    assert_eq!(y, 0);
    // noisy values around the encodings still decode
    let mut z: u64 = 0x8000_0000_0000_0000u64.wrapping_add(12345);
    binary_decode(&mut z);
    assert_eq!(z, 1);
    let mut w: u64 = 0u64.wrapping_sub(12345);
    binary_decode(&mut w);
    assert_eq!(w, 0);
    // bucket edges
    let mut lo: u64 = u64::MAX >> 2;
    binary_decode(&mut lo);
    assert_eq!(lo, 1);
    let mut below: u64 = (u64::MAX >> 2) - 1;
    binary_decode(&mut below);
    assert_eq!(below, 0);
}

#[test]
fn ternary_round_trip() {
    for v in [0u64, 1u64, u64::MAX] {
        let mut x = v;
        ternary_encode(&mut x);
        ternary_decode(&mut x);
        assert_eq!(x, v);
    }
}

#[test]
fn ternary_encode_exact_values() {
    let mut one: u64 = 1;
    ternary_encode(&mut one);
    assert_eq!(one, 6148914691236516864);
    let mut neg: u64 = u64::MAX;
    ternary_encode(&mut neg);
    assert_eq!(neg, 12297829382473033728);
}

#[test]
fn gate_encode_decode() {
    let mut x: u64 = 1;
    encode_gate(&mut x);
    assert_eq!(x, 0x2000_0000_0000_0000);
    decode_gate(&mut x);
    assert_eq!(x, 1);

    let mut z: u64 = 0;
    encode_gate(&mut z);
    assert_eq!(z, 16140901064495857664);
    decode_gate(&mut z);
    assert_eq!(z, 0);
}

#[test]
fn gate_encode_decode32() {
    let mut x: u32 = 1;
    encode_gate32(&mut x);
    assert_eq!(x, 0x2000_0000);
    decode_gate32(&mut x);
    assert_eq!(x, 1);

    let mut z: u32 = 0;
    encode_gate32(&mut z);
    assert_eq!(z, 3758096384);
    decode_gate32(&mut z);
    assert_eq!(z, 0);
}

#[test]
fn accumulator_encode_signs() {
    let mut pos: u64 = 42;
    encode_accumulator(&mut pos);
    assert_eq!(pos, 0x2000_0000_0000_0000);
    let mut neg: u64 = u64::MAX;
    encode_accumulator(&mut neg);
    assert_eq!(neg, 16140901064495857664);

    let mut pos32: u32 = 7;
    encode_accumulator32(&mut pos32);
    assert_eq!(pos32, 0x2000_0000);
    let mut neg32: u32 = u32::MAX;
    encode_accumulator32(&mut neg32);
    assert_eq!(neg32, 3758096384);
}

#[test]
fn gadget_encode_decode_round_trip() {
    let ctx = mfhebrk::Context::custom(
        256, 4, 15, 13, 3, 10, 5, 30, 2, 8, 17, 2, 3, 3, 3, 99,
    );
    // digits below the base round-trip through the first-level encoding
    for d in [0u64, 1, 2, 500, 1023] {
        let mut x = d;
        mfhebrk::encode(&mut x, &ctx);
        mfhebrk::decode(&mut x, &ctx);
        assert_eq!(x, d);
    }
    // a noisy encoding still decodes to the digit
    let mut y: u64 = 5;
    mfhebrk::encode(&mut y, &ctx);
    y = y.wrapping_add(1 << 20);
    mfhebrk::decode(&mut y, &ctx);
    assert_eq!(y, 5);
}
