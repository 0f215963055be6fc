use ml_dsa::encoding::{
    bit_pack, bit_unpack, bitlen, bits_to_bytes, bits_to_integer, bytes_to_bits,
    coeff_from_half_byte, coeff_from_three_bytes, integer_to_bits, integer_to_bytes,
    simple_bit_pack, simple_bit_unpack,
};
use ml_dsa::params::{MlDsa44, MlDsa65, Q};
use ml_dsa::poly::Poly;

struct XorShift(u64);
impl XorShift {
    fn next_u32(&mut self) -> u32 {
        let mut x = self.0;
        x ^= x << 13;
        x ^= x >> 7;
        x ^= x << 17;
        self.0 = x;
        (x >> 32) as u32
    }
}

#[test]
fn bitlen_known() {
    assert_eq!(bitlen(0), 0);
    assert_eq!(bitlen(1), 1);
    assert_eq!(bitlen(1023), 10);
    assert_eq!(bitlen(1024), 11);
}

#[test]
fn integer_bits_round_trip() {
    for &(x, a) in &[(0u64, 8usize), (1, 8), (255, 8), (0b1011, 4), (12345, 20)] {
        let bits = integer_to_bits(x, a);
        assert_eq!(bits.len(), a);
        assert_eq!(bits_to_integer(&bits, a), x);
    }
}

#[test]
fn integer_to_bytes_is_little_endian() {
    assert_eq!(integer_to_bytes(0x01_02_03, 3), vec![0x03, 0x02, 0x01]);
}

#[test]
fn bits_bytes_round_trip_and_endianness() {
    // 0b0000_0001 -> bit 0 set, rest clear.
    assert_eq!(bytes_to_bits(&[1])[..8], [1, 0, 0, 0, 0, 0, 0, 0]);
    let bytes = [0xa5u8, 0x3c, 0xff, 0x00];
    let bits = bytes_to_bits(&bytes);
    assert_eq!(bits_to_bytes(&bits), bytes);
}

#[test]
fn coeff_from_three_bytes_rejects_at_q() {
    // q = 0x7F_E0_01.
    assert_eq!(coeff_from_three_bytes(0x00, 0x00, 0x00), Some(0));
    assert_eq!(coeff_from_three_bytes(0x00, 0xE0, 0x7F), Some(Q - 1));
    assert_eq!(coeff_from_three_bytes(0x01, 0xE0, 0x7F), None); // == q
    // top bit of b2 is ignored.
    assert_eq!(coeff_from_three_bytes(0x00, 0x00, 0x80), Some(0));
}

#[test]
fn coeff_from_half_byte_eta4() {
    assert_eq!(coeff_from_half_byte::<MlDsa65>(0), Some(4));
    assert_eq!(coeff_from_half_byte::<MlDsa65>(8), Some(-4));
    assert_eq!(coeff_from_half_byte::<MlDsa65>(9), None);
    assert_eq!(coeff_from_half_byte::<MlDsa65>(15), None);
}

#[test]
fn coeff_from_half_byte_eta2() {
    // η = 2: 2 − (b mod 5) for b < 15; b = 15 rejects.
    assert_eq!(coeff_from_half_byte::<MlDsa44>(0), Some(2));
    assert_eq!(coeff_from_half_byte::<MlDsa44>(4), Some(-2));
    assert_eq!(coeff_from_half_byte::<MlDsa44>(5), Some(2));
    assert_eq!(coeff_from_half_byte::<MlDsa44>(14), Some(-2));
    assert_eq!(coeff_from_half_byte::<MlDsa44>(15), None);
}

#[test]
fn simple_bit_pack_round_trip_and_length() {
    let mut rng = XorShift(0x2468_ace0_1357_9bdf);
    let b = 1023u32; // 10-bit coeffs (t1 range)
    let mut w = Poly::zero();
    for c in w.coeffs.iter_mut() {
        *c = (rng.next_u32() % (b + 1)) as i32;
    }
    let packed = simple_bit_pack(&w, b);
    assert_eq!(packed.len(), 32 * bitlen(b) as usize); // 320
    assert_eq!(simple_bit_unpack(&packed, b).coeffs, w.coeffs);
}

#[test]
fn bit_pack_round_trip_signed() {
    let mut rng = XorShift(0x1111_2222_3333_4444);
    let (a, b) = (4u32, 4u32); // coeffs in [-4, 4] (η = 4)
    let mut w = Poly::zero();
    for c in w.coeffs.iter_mut() {
        *c = (rng.next_u32() % 9) as i32 - 4;
    }
    let packed = bit_pack(&w, a, b);
    assert_eq!(packed.len(), 32 * bitlen(a + b) as usize); // 128
    assert_eq!(bit_unpack(&packed, a, b).coeffs, w.coeffs);
}

#[test]
fn integer_to_bits_is_little_endian_and_truncates() {
    assert_eq!(integer_to_bits(6, 4), vec![0, 1, 1, 0]);
    // x mod 2^α: the high bit of 0b1_0001 is dropped at α = 4.
    assert_eq!(integer_to_bits(0b1_0001, 4), vec![1, 0, 0, 0]);
    assert_eq!(integer_to_bytes(0x1_0203, 2), vec![0x03, 0x02]);
}

#[test]
fn bits_to_bytes_pads_the_last_byte() {
    assert_eq!(bits_to_bytes(&[1, 1, 0]), vec![0x03]);
    assert_eq!(bits_to_bytes(&[0, 0, 0, 0, 0, 0, 0, 0, 1]), vec![0x00, 0x01]);
    assert_eq!(bits_to_bytes(&[]), Vec::<u8>::new());
}

#[test]
fn simple_bit_pack_known_bytes() {
    // b = 15: four bits per coefficient, two coefficients per byte, low nibble first.
    let mut w = Poly::zero();
    w.coeffs[0] = 0x3;
    w.coeffs[1] = 0xA;
    w.coeffs[255] = 0xF;
    let packed = simple_bit_pack(&w, 15);
    assert_eq!(packed.len(), 128);
    assert_eq!(packed[0], 0xA3);
    assert_eq!(packed[127], 0xF0);
    assert!(packed[1..127].iter().all(|&x| x == 0));
}

#[test]
fn bit_pack_stores_b_minus_coefficient() {
    // a = b = 2: three bits per coefficient holding 2 − w.
    let mut w = Poly::zero();
    w.coeffs[0] = -2; // 4 = 0b100
    w.coeffs[1] = 2; // 0
    w.coeffs[2] = 1; // 1
    for c in w.coeffs.iter_mut().skip(3) {
        *c = 2;
    }
    let packed = bit_pack(&w, 2, 2);
    assert_eq!(packed.len(), 96);
    // bits: 0,0,1 | 0,0,0 | 1,0,... -> byte 0 = 0b0100_0100
    assert_eq!(packed[0], 0x44);
    assert_eq!(bit_unpack(&packed, 2, 2).coeffs, w.coeffs);
}
