use ml_dsa::hash::{G, H};

/// SHAKE256("") first 8 bytes are a well-known value — confirms wiring/endianness.
#[test]
fn shake256_empty_known_answer() {
    let mut r = H::init().finalize();
    let got = r.squeeze_vec(8);
    assert_eq!(got, [0x46, 0xb9, 0xdd, 0x2b, 0x0b, 0xa8, 0x8d, 0x13]);
}

/// Incremental absorb must equal one-shot absorb of the concatenation.
#[test]
fn incremental_absorb_matches_oneshot() {
    let mut a = G::init();
    a.absorb(b"hello ");
    a.absorb(b"world");
    let mut b = G::init();
    b.absorb(b"hello world");
    assert_eq!(a.finalize().squeeze_vec(32), b.finalize().squeeze_vec(32));
}

/// SHAKE128("") first 8 bytes.
#[test]
fn shake128_empty_known_answer() {
    let mut r = G::init().finalize();
    let mut out = [0u8; 8];
    r.squeeze(&mut out);
    assert_eq!(out, [0x7f, 0x9c, 0x2b, 0xa4, 0xe8, 0x8f, 0x82, 0x7d]);
}

/// Squeezing in pieces continues the same output stream.
#[test]
fn squeezes_continue_the_stream() {
    let mut h = H::init();
    h.absorb(b"stream");
    let mut r = h.finalize();
    let first = r.squeeze_vec(5);
    let second = r.squeeze_vec(11);
    let mut h2 = H::init();
    h2.absorb(b"stream");
    let whole = h2.finalize().squeeze_vec(16);
    assert_eq!(&whole[..5], &first[..]);
    assert_eq!(&whole[5..], &second[..]);
}
