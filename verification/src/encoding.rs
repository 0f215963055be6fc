//! FIPS 204 §7.1 — data conversion (Algorithms 9–19). Little-endian throughout.
use crate::params::{bitlen_spec, ParameterSet, N, Q};
use crate::poly::Poly;
use vstd::arithmetic::power2::pow2;
use vstd::prelude::*;

verus! {

/// `x >> 1` is `x / 2` and `x & 1` is `x % 2`.
proof fn lemma_u64_shift_one(x: u64)
    ensures
        x >> 1u64 == x / 2,
        x & 1 == x % 2,
{
    assert(x >> 1u64 == x / 2) by (bit_vector);
    assert(x & 1 == x % 2) by (bit_vector);
}

/// `bitlen b` — number of bits in the binary representation of `b` (`bitlen 0 = 0`).
pub fn bitlen(b: u32) -> (r: u32)
    ensures
        r == bitlen_spec(b as nat),
        r <= 32,
{
    let mut x = b;
    let mut n: u32 = 0;
    proof {
        lemma_bitlen_u32(b);
    }
    while x > 0
        invariant
            n + bitlen_spec(x as nat) == bitlen_spec(b as nat),
            n <= 32 - bitlen_spec(x as nat),
            bitlen_spec(x as nat) <= 32,
        decreases x,
    {
        assert(x >> 1u32 == x / 2) by (bit_vector);
        proof {
            lemma_bitlen_u32(x / 2);
        }
        x = x >> 1;
        n = n + 1;
    }
    n
}

/// `bitlen` of a 32-bit value is at most 32.
pub proof fn lemma_bitlen_u32(x: u32)
    ensures
        bitlen_spec(x as nat) <= 32,
{
    vstd::arithmetic::power2::lemma2_to64();
    lemma_bitlen_bound(x as nat, 32);
}

/// `x < 2^k` bounds `bitlen x` by `k`.
pub proof fn lemma_bitlen_bound(x: nat, k: nat)
    requires
        x < pow2(k),
    ensures
        bitlen_spec(x) <= k,
    decreases k,
{
    if x > 0 {
        if k == 0 {
            vstd::arithmetic::power2::lemma2_to64();
        } else {
            vstd::arithmetic::power2::lemma_pow2_unfold(k);
            lemma_bitlen_bound(x / 2, (k - 1) as nat);
        }
    }
}

/// Bit `k` of `x` (little-endian).
pub open spec fn bit_of(x: nat, k: nat) -> u8 {
    ((x / pow2(k)) % 2) as u8
}

/// IntegerToBits: the low `alpha` bits of `x`, least significant first.
pub open spec fn int_to_bits_spec(x: nat, alpha: nat) -> Seq<u8> {
    Seq::new(alpha, |i: int| bit_of(x, i as nat))
}

/// BitsToInteger: `Σ y[i]·2^i`.
pub open spec fn bits_value(y: Seq<u8>) -> nat
    decreases y.len(),
{
    if y.len() == 0 {
        0
    } else {
        y[0] as nat + 2 * bits_value(y.drop_first())
    }
}

/// `x / 2^(k+1) = (x / 2^k) / 2`.
proof fn lemma_div_pow2_step(x: nat, k: nat)
    ensures
        x / pow2(k + 1) == (x / pow2(k)) / 2,
{
    vstd::arithmetic::power2::lemma_pow2_pos(k);
    vstd::arithmetic::power2::lemma_pow2_unfold(k + 1);
    vstd::arithmetic::div_mod::lemma_div_denominator(x as int, pow2(k) as int, 2);
    vstd::arithmetic::mul::lemma_mul_is_commutative(2, pow2(k) as int);
}

/// FIPS 204, Algorithm 9 — IntegerToBits: `x mod 2^α` as `α` bits, little-endian.
pub fn integer_to_bits(x: u64, alpha: usize) -> (y: Vec<u8>)
    ensures
        y@ == int_to_bits_spec(x as nat, alpha as nat),
{
    let mut y: Vec<u8> = Vec::with_capacity(alpha);
    let mut xp = x;
    let mut i: usize = 0;
    proof {
        vstd::arithmetic::power2::lemma2_to64();
    }
    while i < alpha
        invariant
            i <= alpha,
            xp as nat == x as nat / pow2(i as nat),
            y@ == int_to_bits_spec(x as nat, i as nat),
        decreases alpha - i,
    {
        proof {
            lemma_u64_shift_one(xp);
            lemma_div_pow2_step(x as nat, i as nat);
        }
        y.push((xp & 1) as u8);
        xp >>= 1;
        i += 1;
        assert(y@ =~= int_to_bits_spec(x as nat, i as nat));
    }
    y
}

/// The value of `y[lo..]` read as a little-endian bit string, built top down.
proof fn lemma_bits_value_prepend(y: Seq<u8>, j: int)
    requires
        0 <= j < y.len(),
    ensures
        bits_value(y.subrange(j, y.len() as int)) == y[j] + 2 * bits_value(
            y.subrange(j + 1, y.len() as int),
        ),
{
    assert(y.subrange(j, y.len() as int).drop_first() =~= y.subrange(j + 1, y.len() as int));
}

/// FIPS 204, Algorithm 10 — BitsToInteger: value of the `α`-bit little-endian string `y[..α]`.
pub fn bits_to_integer(y: &[u8], alpha: usize) -> (x: u64)
    requires
        alpha <= y@.len(),
        bits_value(y@.subrange(0, alpha as int)) <= u64::MAX,
    ensures
        x == bits_value(y@.subrange(0, alpha as int)),
{
    let ghost ys = y@.subrange(0, alpha as int);
    let mut x: u64 = 0;
    let mut k: usize = alpha;
    assert(ys.subrange(alpha as int, alpha as int) =~= Seq::<u8>::empty());
    while k > 0
        invariant
            k <= alpha,
            alpha <= y@.len(),
            ys == y@.subrange(0, alpha as int),
            bits_value(ys) <= u64::MAX,
            x == bits_value(ys.subrange(k as int, alpha as int)),
        decreases k,
    {
        k -= 1;
        proof {
            lemma_bits_value_prepend(ys, k as int);
            lemma_bits_value_suffix_le(ys, k as int);
        }
        x = 2 * x + y[k] as u64;
    }
    assert(ys.subrange(0, alpha as int) =~= ys);
    x
}

/// A suffix's value never exceeds the whole string's value.
proof fn lemma_bits_value_suffix_le(y: Seq<u8>, j: int)
    requires
        0 <= j <= y.len(),
    ensures
        bits_value(y.subrange(j, y.len() as int)) <= bits_value(y),
    decreases j,
{
    if j > 0 {
        lemma_bits_value_suffix_le(y, j - 1);
        lemma_bits_value_prepend(y, j - 1);
    } else {
        assert(y.subrange(0, y.len() as int) =~= y);
    }
}

/// IntegerToBytes: byte `k` of `x` (little-endian).
pub open spec fn byte_of(x: nat, k: nat) -> u8 {
    ((x / pow2(8 * k)) % 256) as u8
}

/// FIPS 204, Algorithm 11 — IntegerToBytes: `x mod 256^α` as `α` bytes, little-endian.
pub fn integer_to_bytes(x: u64, alpha: usize) -> (y: Vec<u8>)
    ensures
        y@ == Seq::new(alpha as nat, |i: int| byte_of(x as nat, i as nat)),
{
    let mut y: Vec<u8> = Vec::with_capacity(alpha);
    let mut xp = x;
    let mut i: usize = 0;
    proof {
        vstd::arithmetic::power2::lemma2_to64();
        assert(x as nat / pow2(0) == x as nat);
    }
    while i < alpha
        invariant
            i <= alpha,
            xp as nat == x as nat / pow2(8 * i as nat),
            y@ == Seq::new(i as nat, |k: int| byte_of(x as nat, k as nat)),
        decreases alpha - i,
    {
        assert(xp >> 8u64 == xp / 256 && xp & 0xff == xp % 256) by (bit_vector);
        proof {
            vstd::arithmetic::power2::lemma_pow2_adds(8 * i as nat, 8);
            vstd::arithmetic::power2::lemma_pow2_pos(8 * i as nat);
            vstd::arithmetic::power2::lemma2_to64();
            vstd::arithmetic::div_mod::lemma_div_denominator(x as int, pow2(8 * i as nat) as int, 256);
            assert(8 * (i + 1) as nat == 8 * i as nat + 8);
        }
        y.push((xp & 0xff) as u8);
        xp >>= 8;
        i += 1;
        assert(y@ =~= Seq::new(i as nat, |k: int| byte_of(x as nat, k as nat)));
    }
    y
}

/// Every entry is `0` or `1`.
pub open spec fn is_bit_string(y: Seq<u8>) -> bool {
    forall|i: int| 0 <= i < y.len() ==> #[trigger] y[i] == 0 || y[i] == 1
}

/// Extending a bit string by one bit adds that bit's weight.
pub proof fn lemma_bits_value_push(s: Seq<u8>, k: int)
    requires
        0 <= k < s.len(),
    ensures
        bits_value(s.take(k + 1)) == bits_value(s.take(k)) + s[k] * pow2(k as nat),
    decreases k,
{
    vstd::arithmetic::power2::lemma2_to64();
    if k == 0 {
        assert(s.take(1).drop_first() =~= Seq::<u8>::empty());
        assert(s.take(0) =~= Seq::<u8>::empty());
        assert(bits_value(Seq::<u8>::empty()) == 0);
        assert(bits_value(s.take(1)) == s[0] + 2 * bits_value(s.take(1).drop_first()));
    } else {
        let t = s.drop_first();
        lemma_bits_value_push(t, k - 1);
        assert(s.take(k + 1).drop_first() =~= t.take(k));
        assert(s.take(k).drop_first() =~= t.take(k - 1));
        assert(bits_value(s.take(k + 1)) == s[0] + 2 * bits_value(t.take(k)));
        assert(bits_value(s.take(k)) == s[0] + 2 * bits_value(t.take(k - 1)));
        vstd::arithmetic::power2::lemma_pow2_unfold(k as nat);
        assert(t[k - 1] == s[k]);
        let b = s[k] as int;
        let p = pow2((k - 1) as nat) as int;
        assert(2 * (b * p) == b * (2 * p)) by (nonlinear_arith);
    }
}

/// Reading back the bits of `x` gives `x mod 2^alpha`.
pub proof fn lemma_bits_value_of_int(x: nat, alpha: nat)
    ensures
        bits_value(int_to_bits_spec(x, alpha)) == x % pow2(alpha),
    decreases alpha,
{
    vstd::arithmetic::power2::lemma2_to64();
    if alpha == 0 {
        assert(int_to_bits_spec(x, 0) =~= Seq::<u8>::empty());
    } else {
        lemma_bits_value_of_int(x / 2, (alpha - 1) as nat);
        assert(int_to_bits_spec(x, alpha).drop_first() =~= int_to_bits_spec(x / 2, (alpha - 1) as nat))
            by {
            assert forall|i: int| 0 <= i < alpha - 1 implies int_to_bits_spec(x, alpha).drop_first()[i]
                == int_to_bits_spec(x / 2, (alpha - 1) as nat)[i] by {
                lemma_div_pow2_step(x, i as nat);
                vstd::arithmetic::power2::lemma_pow2_pos(i as nat);
                vstd::arithmetic::div_mod::lemma_div_denominator(x as int, 2, pow2(i as nat) as int);
                vstd::arithmetic::power2::lemma_pow2_adds(1, i as nat);
                vstd::arithmetic::mul::lemma_mul_is_commutative(2, pow2(i as nat) as int);
            }
        }
        vstd::arithmetic::power2::lemma_pow2_unfold(alpha);
        vstd::arithmetic::power2::lemma_pow2_pos((alpha - 1) as nat);
        let p = pow2((alpha - 1) as nat) as int;
        // x mod 2^α = (x mod 2) + 2 · ((x / 2) mod 2^(α−1))
        vstd::arithmetic::div_mod::lemma_mod_breakdown(x as int, 2, p);
        assert(x / pow2(0) == x);
    }
}

/// In a bit string, bit `j` of the value is entry `j`.
pub proof fn lemma_bit_of_bits_value(s: Seq<u8>, j: int)
    requires
        is_bit_string(s),
        0 <= j < s.len(),
    ensures
        bit_of(bits_value(s), j as nat) == s[j],
    decreases j,
{
    vstd::arithmetic::power2::lemma2_to64();
    let v = bits_value(s);
    let t = s.drop_first();
    assert(s[0] == 0 || s[0] == 1);
    assert(v == s[0] + 2 * bits_value(t));
    if j == 0 {
        assert(v / 1 == v);
    } else {
        assert(is_bit_string(t)) by {
            assert forall|i: int| 0 <= i < t.len() implies #[trigger] t[i] == 0 || t[i] == 1 by {
                assert(t[i] == s[i + 1]);
            }
        }
        lemma_bit_of_bits_value(t, j - 1);
        lemma_div_pow2_step(v, (j - 1) as nat);
        vstd::arithmetic::power2::lemma_pow2_pos((j - 1) as nat);
        vstd::arithmetic::div_mod::lemma_div_denominator(v as int, 2, pow2((j - 1) as nat) as int);
        vstd::arithmetic::div_mod::lemma_div_denominator(
            v as int,
            pow2((j - 1) as nat) as int,
            2,
        );
        vstd::arithmetic::mul::lemma_mul_is_commutative(2, pow2((j - 1) as nat) as int);
        assert(v / 2 == bits_value(t));
    }
}

/// BytesToBits: bit `i` of the result is bit `i mod 8` of byte `i / 8`.
pub open spec fn bytes_to_bits_spec(z: Seq<u8>) -> Seq<u8> {
    Seq::new(8 * z.len(), |i: int| bit_of(z[i / 8] as nat, (i % 8) as nat))
}

/// BitsToBytes: byte `b` is the value of bits `8b .. 8b+8` (fewer in a last, short byte).
pub open spec fn bits_to_bytes_spec(y: Seq<u8>) -> Seq<u8> {
    Seq::new(
        ((y.len() + 7) / 8) as nat,
        |b: int|
            bits_value(
                y.subrange(8 * b, if 8 * b + 8 <= y.len() { 8 * b + 8 } else { y.len() as int }),
            ) as u8,
    )
}

/// FIPS 204, Algorithm 13 — BytesToBits: unpack bytes into a bit string, LSB-first.
pub fn bytes_to_bits(z: &[u8]) -> (y: Vec<u8>)
    requires
        8 * z@.len() <= usize::MAX,
    ensures
        y@ == bytes_to_bits_spec(z@),
        is_bit_string(y@),
{
    let mut y: Vec<u8> = Vec::with_capacity(8 * z.len());
    proof {
        vstd::arithmetic::power2::lemma2_to64();
    }
    for i in 0..z.len()
        invariant
            8 * z@.len() <= usize::MAX,
            y@.len() == 8 * i,
            forall|k: int| 0 <= k < 8 * i ==> (#[trigger] y@[k]) == bit_of(z@[k / 8] as nat, (k % 8) as nat),
            is_bit_string(y@),
    {
        let mut zi = z[i];
        proof {
            vstd::arithmetic::power2::lemma2_to64();
        }
        for j in 0..8
            invariant
                i < z@.len(),
                y@.len() == 8 * i + j,
                zi as nat == z@[i as int] as nat / pow2(j as nat),
                forall|k: int| 0 <= k < 8 * i + j ==> (#[trigger] y@[k]) == bit_of(z@[k / 8] as nat, (k % 8) as nat),
                is_bit_string(y@),
        {
            assert(zi & 1 == zi % 2 && zi >> 1u8 == zi / 2) by (bit_vector);
            proof {
                lemma_div_pow2_step(z@[i as int] as nat, j as nat);
                assert((8 * i + j) / 8 == i && (8 * i + j) % 8 == j);
            }
            y.push(zi & 1);
            zi >>= 1;
        }
    }
    assert(y@ =~= bytes_to_bits_spec(z@));
    y
}

/// FIPS 204, Algorithm 12 — BitsToBytes: pack a bit string into bytes, LSB-first.
pub fn bits_to_bytes(y: &[u8]) -> (z: Vec<u8>)
    requires
        is_bit_string(y@),
    ensures
        z@ == bits_to_bytes_spec(y@),
{
    let alpha = y.len();
    let nbytes = alpha / 8 + if alpha % 8 == 0 { 0 } else { 1 };
    assert(nbytes == (alpha + 7) / 8);
    let mut z: Vec<u8> = Vec::with_capacity(nbytes);
    proof {
        vstd::arithmetic::power2::lemma2_to64();
    }
    for b in 0..nbytes
        invariant
            nbytes == (alpha + 7) / 8,
            alpha == y@.len(),
            is_bit_string(y@),
            z@.len() == b,
            forall|c: int| 0 <= c < b ==> (#[trigger] z@[c]) == bits_to_bytes_spec(y@)[c],
    {
        let end = if alpha - 8 * b >= 8 { 8 * b + 8 } else { alpha };
        let ghost chunk = y@.subrange(8 * b as int, end as int);
        let mut acc: u16 = 0;
        let mut w: u16 = 1;
        let mut k: usize = 0;
        proof {
            vstd::arithmetic::power2::lemma2_to64();
        }
        assert(chunk.take(0) =~= Seq::<u8>::empty());
        while 8 * b + k < end
            invariant
                8 * b + 8 <= alpha ==> end == 8 * b + 8,
                8 * b + 8 > alpha ==> end == alpha,
                8 * b < alpha,
                alpha == y@.len(),
                is_bit_string(y@),
                chunk == y@.subrange(8 * b as int, end as int),
                k <= 8,
                8 * b + k <= end,
                acc as nat == bits_value(chunk.take(k as int)),
                w == pow2(k as nat),
                acc < pow2(k as nat),
            decreases end - (8 * b + k),
        {
            proof {
                lemma_bits_value_push(chunk, k as int);
                assert(chunk[k as int] == y@[8 * b + k]);
                assert(y@[8 * b + k] == 0 || y@[8 * b + k] == 1);
                vstd::arithmetic::power2::lemma2_to64();
                vstd::arithmetic::power2::lemma_pow2_unfold((k + 1) as nat);
                if k < 7 {
                    vstd::arithmetic::power2::lemma_pow2_strictly_increases(k as nat, 7);
                }
            }
            let bit = y[8 * b + k];
            assert((bit as u16) * w == if bit == 0 { 0 } else { w }) by (nonlinear_arith)
                requires
                    bit == 0 || bit == 1,
            ;
            acc = acc + (bit as u16) * w;
            w = w * 2;
            k += 1;
        }
        proof {
            if k < 8 {
                vstd::arithmetic::power2::lemma_pow2_strictly_increases(k as nat, 8);
            }
        }
        assert(chunk.take(k as int) =~= chunk);
        z.push(acc as u8);
        assert(z@[b as int] == bits_to_bytes_spec(y@)[b as int]);
    }
    assert(z@ =~= bits_to_bytes_spec(y@));
    z
}

/// Dropping the first entry of a bit string leaves a bit string.
proof fn lemma_bit_string_drop_first(s: Seq<u8>)
    requires
        is_bit_string(s),
        s.len() > 0,
    ensures
        is_bit_string(s.drop_first()),
{
    let t = s.drop_first();
    assert forall|i: int| 0 <= i < t.len() implies #[trigger] t[i] == 0 || t[i] == 1 by {
        assert(t[i] == s[i + 1]);
    }
}

/// A bit of any value is `0` or `1`.
proof fn lemma_bit_of_is_bit(x: nat, k: nat)
    ensures
        bit_of(x, k) == 0 || bit_of(x, k) == 1,
{
    vstd::arithmetic::power2::lemma_pow2_pos(k);
    let q = x / pow2(k);
    assert(q % 2 == 0 || q % 2 == 1);
}

/// A value is below 2 to the power of its bit length.
pub proof fn lemma_lt_pow2_bitlen(x: nat)
    ensures
        x < pow2(bitlen_spec(x)),
    decreases x,
{
    vstd::arithmetic::power2::lemma2_to64();
    if x > 0 {
        lemma_lt_pow2_bitlen(x / 2);
        vstd::arithmetic::power2::lemma_pow2_unfold(bitlen_spec(x));
    }
}

/// A bit string of length `n` has a value below `2^n`.
pub proof fn lemma_bits_value_bound(s: Seq<u8>)
    requires
        is_bit_string(s),
    ensures
        bits_value(s) < pow2(s.len()),
    decreases s.len(),
{
    vstd::arithmetic::power2::lemma2_to64();
    if s.len() > 0 {
        lemma_bit_string_drop_first(s);
        lemma_bits_value_bound(s.drop_first());
        vstd::arithmetic::power2::lemma_pow2_unfold(s.len());
        assert(s[0] == 0 || s[0] == 1);
    }
}

/// The bits of a bit string's value are the string itself.
pub proof fn lemma_int_to_bits_of_value(s: Seq<u8>)
    requires
        is_bit_string(s),
    ensures
        int_to_bits_spec(bits_value(s), s.len()) == s,
{
    assert forall|j: int| 0 <= j < s.len() implies int_to_bits_spec(bits_value(s), s.len())[j]
        == s[j] by {
        lemma_bit_of_bits_value(s, j);
    }
    assert(int_to_bits_spec(bits_value(s), s.len()) =~= s);
}

/// Position `k` of a string of `n` fields of `c` entries lies in field `k / c`, at `k % c`.
proof fn lemma_split_index(k: int, c: int, n: int)
    requires
        c > 0,
        0 <= k < n * c,
    ensures
        0 <= k / c < n,
        0 <= k % c < c,
        k == (k / c) * c + k % c,
{
    vstd::arithmetic::div_mod::lemma_fundamental_div_mod(k, c);
    let q = k / c;
    let r = k % c;
    assert(0 <= r < c);
    assert(q * c == c * q) by (nonlinear_arith);
    assert(0 <= q < n) by (nonlinear_arith)
        requires
            k == q * c + r,
            0 <= r < c,
            0 <= k < n * c,
            c > 0,
    ;
}

/// `c` bits per value, value `i` at bits `i·c .. i·c + c`, least significant first.
pub open spec fn values_to_bits(vals: Seq<nat>, c: nat) -> Seq<u8> {
    Seq::new(vals.len() * c, |k: int| bit_of(vals[k / (c as int)], (k % (c as int)) as nat))
}

/// Bit strings of values are bit strings.
proof fn lemma_values_to_bits_is_bit_string(vals: Seq<nat>, c: nat)
    ensures
        is_bit_string(values_to_bits(vals, c)),
{
    let y = values_to_bits(vals, c);
    assert forall|k: int| 0 <= k < y.len() implies #[trigger] y[k] == 0 || y[k] == 1 by {
        lemma_bit_of_is_bit(vals[k / (c as int)], (k % (c as int)) as nat);
    }
}

/// Appending one value appends its `c` bits.
proof fn lemma_values_to_bits_push(vals: Seq<nat>, v: nat, c: nat)
    requires
        c > 0,
    ensures
        values_to_bits(vals.push(v), c) == values_to_bits(vals, c) + int_to_bits_spec(v, c),
{
    let n = vals.len() as int;
    let ci = c as int;
    let lhs = values_to_bits(vals.push(v), c);
    let rhs = values_to_bits(vals, c) + int_to_bits_spec(v, c);
    assert((n + 1) * ci == n * ci + ci) by (nonlinear_arith);
    assert forall|k: int| 0 <= k < lhs.len() implies lhs[k] == rhs[k] by {
        lemma_split_index(k, ci, n + 1);
        if k < n * ci {
            lemma_split_index(k, ci, n);
        } else {
            vstd::arithmetic::div_mod::lemma_fundamental_div_mod_converse(k, ci, n, k - n * ci);
            assert(n * ci == ci * n) by (nonlinear_arith);
        }
    }
    assert(lhs =~= rhs);
}

/// Bits `i·c .. i·c + c` of the string are the bits of value `i`.
proof fn lemma_values_to_bits_field(vals: Seq<nat>, c: nat, i: int)
    requires
        0 <= i < vals.len(),
    ensures
        i * c + c <= vals.len() * c,
        values_to_bits(vals, c).subrange(i * c, i * c + c) == int_to_bits_spec(vals[i], c),
{
    let ci = c as int;
    let n = vals.len() as int;
    assert(i * ci + ci <= n * ci) by (nonlinear_arith)
        requires
            0 <= i < n,
            ci >= 0,
    ;
    let y = values_to_bits(vals, c).subrange(i * ci, i * ci + ci);
    assert forall|j: int| 0 <= j < ci implies y[j] == int_to_bits_spec(vals[i], c)[j] by {
        vstd::arithmetic::div_mod::lemma_fundamental_div_mod_converse(i * ci + j, ci, i, j);
    }
    assert(y =~= int_to_bits_spec(vals[i], c));
}

/// Packing a bit string whose length is a multiple of 8 and unpacking the bytes gives it back.
pub proof fn lemma_bytes_to_bits_of_bits_to_bytes(y: Seq<u8>)
    requires
        is_bit_string(y),
        y.len() % 8 == 0,
    ensures
        bytes_to_bits_spec(bits_to_bytes_spec(y)) == y,
{
    let z = bits_to_bytes_spec(y);
    vstd::arithmetic::power2::lemma2_to64();
    assert forall|i: int| 0 <= i < y.len() implies bytes_to_bits_spec(z)[i] == y[i] by {
        let b = i / 8;
        let chunk = y.subrange(8 * b, 8 * b + 8);
        assert(is_bit_string(chunk)) by {
            assert forall|t: int| 0 <= t < chunk.len() implies #[trigger] chunk[t] == 0 || chunk[t]
                == 1 by {
                assert(chunk[t] == y[8 * b + t]);
            }
        }
        lemma_bits_value_bound(chunk);
        assert(z[b] as nat == bits_value(chunk));
        lemma_bit_of_bits_value(chunk, i % 8);
        assert(chunk[i % 8] == y[i]);
    }
    assert(bytes_to_bits_spec(z) =~= y);
}

/// Unpacking bytes into bits and packing them again gives the bytes back.
pub proof fn lemma_bits_to_bytes_of_bytes_to_bits(z: Seq<u8>)
    ensures
        bits_to_bytes_spec(bytes_to_bits_spec(z)) == z,
{
    let y = bytes_to_bits_spec(z);
    vstd::arithmetic::power2::lemma2_to64();
    assert forall|b: int| 0 <= b < z.len() implies bits_to_bytes_spec(y)[b] == z[b] by {
        assert(y.subrange(8 * b, 8 * b + 8) =~= int_to_bits_spec(z[b] as nat, 8)) by {
            assert forall|j: int| 0 <= j < 8 implies y.subrange(8 * b, 8 * b + 8)[j]
                == int_to_bits_spec(z[b] as nat, 8)[j] by {
                assert((8 * b + j) / 8 == b && (8 * b + j) % 8 == j);
            }
        }
        lemma_bits_value_of_int(z[b] as nat, 8);
    }
    assert(bits_to_bytes_spec(y) =~= z);
}

/// CoeffFromThreeBytes: the 23-bit little-endian value of `b0, b1, b2` with the top bit of
/// `b2` cleared.
pub open spec fn three_bytes_value(b0: u8, b1: u8, b2: u8) -> int {
    (b2 % 128) * 65536 + b1 * 256 + b0
}

/// FIPS 204, Algorithm 14 — CoeffFromThreeBytes: 3 bytes → an element of `{0,…,q−1}` or `⊥`.
pub fn coeff_from_three_bytes(b0: u8, b1: u8, b2: u8) -> (r: Option<i32>)
    ensures
        three_bytes_value(b0, b1, b2) < Q ==> r == Some(three_bytes_value(b0, b1, b2) as i32),
        three_bytes_value(b0, b1, b2) >= Q ==> r is None,
{
    let b2p = (b2 & 0x7f) as i32;
    assert(b2 & 0x7f == b2 % 128) by (bit_vector);
    assert(b2p << 16i32 == b2p * 65536) by (bit_vector)
        requires
            0 <= b2p < 128,
    ;
    let b1i = b1 as i32;
    assert(b1i << 8i32 == b1i * 256) by (bit_vector)
        requires
            0 <= b1i < 256,
    ;
    let z = (b2p << 16i32) + (b1i << 8i32) + b0 as i32;
    if z < Q {
        Some(z)
    } else {
        None
    }
}

/// FIPS 204, Algorithm 15 — CoeffFromHalfByte: nibble → an element of `{−η,…,η}` or `⊥`.
/// The two branches are the spec's lines 1–2 (`η = 2`, with the `mod 5` fold) and
/// lines 3–4 (`η = 4`).
pub fn coeff_from_half_byte<P: ParameterSet>(b: u8) -> (r: Option<i32>)
    ensures
        r == half_byte_coeff::<P>(b),
{
    if P::ETA == 2 && b < 15 {
        Some(2 - (b % 5) as i32)
    } else if P::ETA == 4 && b < 9 {
        Some(4 - b as i32)
    } else {
        None
    }
}

/// CoeffFromHalfByte: `2 − (b mod 5)` for `η = 2, b < 15`; `4 − b` for `η = 4, b < 9`;
/// otherwise `⊥`.
pub open spec fn half_byte_coeff<P: ParameterSet>(b: u8) -> Option<i32> {
    if P::ETA == 2 && b < 15 {
        Some((2 - b % 5) as i32)
    } else if P::ETA == 4 && b < 9 {
        Some((4 - b) as i32)
    } else {
        None
    }
}

/// SimpleBitPack's view of the coefficients: each as the 64-bit pattern it is cast to.
pub open spec fn simple_pack_values(w: Seq<i32>) -> Seq<nat> {
    w.map_values(|x: i32| (x as u64) as nat)
}

/// BitPack's view of the coefficients: `b − w_i`, as the 64-bit pattern it is cast to.
pub open spec fn signed_pack_values(w: Seq<i32>, b: u32) -> Seq<nat> {
    w.map_values(|x: i32| ((b - x) as u64) as nat)
}

/// The bytes of a polynomial packed at `c` bits per coefficient.
pub open spec fn packed_bytes(vals: Seq<nat>, c: nat) -> Seq<u8> {
    bits_to_bytes_spec(values_to_bits(vals, c))
}

/// The value that bits `i·c .. i·c + c` of the bytes `v` spell.
pub open spec fn read_value(v: Seq<u8>, c: nat, i: int) -> nat {
    bits_value(bytes_to_bits_spec(v).subrange(i * c, i * c + c))
}

/// The bytes of a polynomial are 32 bytes per bit of coefficient width.
pub proof fn lemma_packed_len(vals: Seq<nat>, c: nat)
    requires
        vals.len() == N,
    ensures
        packed_bytes(vals, c).len() == 32 * c,
{
    assert(256 * c + 7 == 8 * (32 * c) + 7);
    assert((8 * (32 * c) + 7) / 8 == 32 * c);
}

/// Concatenate the bits of `vals[0..N]` at `c` bits each, as the pack routines do.
fn pack_bits(vals: &[u64; N], c: usize) -> (bits: Vec<u8>)
    requires
        0 < c <= 64,
    ensures
        bits@ == values_to_bits(vals@.map_values(|x: u64| x as nat), c as nat),
{
    let ghost vs = vals@.map_values(|x: u64| x as nat);
    let mut bits: Vec<u8> = Vec::with_capacity(N * c);
    let mut i: usize = 0;
    assert(vs.take(0) =~= Seq::<nat>::empty());
    assert(values_to_bits(Seq::<nat>::empty(), c as nat) =~= Seq::<u8>::empty());
    while i < N
        invariant
            0 < c <= 64,
            i <= N,
            vs == vals@.map_values(|x: u64| x as nat),
            bits@ == values_to_bits(vs.take(i as int), c as nat),
        decreases N - i,
    {
        let mut t = integer_to_bits(vals[i], c);
        proof {
            lemma_values_to_bits_push(vs.take(i as int), vs[i as int], c as nat);
            assert(vs.take(i as int).push(vs[i as int]) =~= vs.take(i + 1));
        }
        bits.append(&mut t);
        i += 1;
    }
    assert(vs.take(N as int) =~= vs);
    bits
}

/// FIPS 204, Algorithm 16 — SimpleBitPack: pack `w` (coeffs in `[0, b]`) into bytes.
pub fn simple_bit_pack(w: &Poly, b: u32) -> (r: Vec<u8>)
    ensures
        r@ == packed_bytes(simple_pack_values(w.coeffs@), bitlen_spec(b as nat)),
        r@.len() == 32 * bitlen_spec(b as nat),
{
    let c = bitlen(b) as usize;
    let mut vals: [u64; N] = [0; N];
    for i in 0..N
        invariant
            forall|j: int| 0 <= j < i ==> vals@[j] == (w.coeffs@[j] as u64),
    {
        vals[i] = w.coeffs[i] as u64;
    }
    let ghost vs = vals@.map_values(|x: u64| x as nat);
    assert(vs =~= simple_pack_values(w.coeffs@));
    let bits = if c == 0 {
        assert(values_to_bits(vs, 0) =~= Seq::<u8>::empty());
        Vec::new()
    } else {
        pack_bits(&vals, c)
    };
    proof {
        lemma_values_to_bits_is_bit_string(vs, c as nat);
        lemma_packed_len(vs, c as nat);
    }
    bits_to_bytes(&bits)
}

/// FIPS 204, Algorithm 17 — BitPack: pack `w` (coeffs in `[−a, b]`) into bytes.
pub fn bit_pack(w: &Poly, a: u32, b: u32) -> (r: Vec<u8>)
    requires
        a + b <= u32::MAX,
    ensures
        r@ == packed_bytes(signed_pack_values(w.coeffs@, b), bitlen_spec((a + b) as nat)),
        r@.len() == 32 * bitlen_spec((a + b) as nat),
{
    let c = bitlen(a + b) as usize;
    let mut vals: [u64; N] = [0; N];
    for i in 0..N
        invariant
            forall|j: int| 0 <= j < i ==> vals@[j] == ((b - w.coeffs@[j]) as u64),
    {
        let v = b as i64 - w.coeffs[i] as i64;
        vals[i] = v as u64;
    }
    let ghost vs = vals@.map_values(|x: u64| x as nat);
    assert(vs =~= signed_pack_values(w.coeffs@, b));
    let bits = if c == 0 {
        assert(values_to_bits(vs, 0) =~= Seq::<u8>::empty());
        Vec::new()
    } else {
        pack_bits(&vals, c)
    };
    proof {
        lemma_values_to_bits_is_bit_string(vs, c as nat);
        lemma_packed_len(vs, c as nat);
    }
    bits_to_bytes(&bits)
}

/// `2^c` is at most `2^32` for `c ≤ 32`.
proof fn lemma_pow2_le_32(c: nat)
    requires
        c <= 32,
    ensures
        pow2(c) <= 0x1_0000_0000,
{
    vstd::arithmetic::power2::lemma2_to64();
    if c < 32 {
        vstd::arithmetic::power2::lemma_pow2_strictly_increases(c, 32);
    }
}

/// Read field `i` (`c` bits) out of the bit string `z`.
fn read_field(z: &Vec<u8>, c: usize, i: usize) -> (x: u64)
    requires
        is_bit_string(z@),
        c <= 32,
        i < N,
        z@.len() >= N * c,
    ensures
        i * c + c <= z@.len(),
        x == bits_value(z@.subrange(i * c, i * c + c)),
        x < pow2(c as nat),
{
    assert(i * c + c <= N * c && i * c + c <= 8192) by (nonlinear_arith)
        requires
            i < N,
            c <= 32,
    ;
    let field = vstd::slice::slice_subrange(z.as_slice(), i * c, i * c + c);
    proof {
        assert(is_bit_string(field@)) by {
            assert forall|t: int| 0 <= t < field@.len() implies #[trigger] field@[t] == 0
                || field@[t] == 1 by {
                assert(field@[t] == z@[i * c + t]);
            }
        }
        lemma_bits_value_bound(field@);
        lemma_pow2_le_32(c as nat);
        assert(field@.subrange(0, c as int) =~= field@);
    }
    bits_to_integer(field, c)
}

/// FIPS 204, Algorithm 18 — SimpleBitUnpack: reverse SimpleBitPack.
pub fn simple_bit_unpack(v: &[u8], b: u32) -> (w: Poly)
    requires
        v@.len() >= 32 * bitlen_spec(b as nat),
        8 * v@.len() <= usize::MAX,
    ensures
        forall|i: int|
            0 <= i < N ==> w.coeffs@[i] == read_value(v@, bitlen_spec(b as nat), i) as i32,
{
    let c = bitlen(b) as usize;
    let z = bytes_to_bits(v);
    let mut w = Poly::zero();
    for i in 0..N
        invariant
            c == bitlen_spec(b as nat),
            c <= 32,
            z@ == bytes_to_bits_spec(v@),
            is_bit_string(z@),
            z@.len() >= N * c,
            forall|j: int| 0 <= j < i ==> w.coeffs@[j] == read_value(v@, c as nat, j) as i32,
    {
        let x = read_field(&z, c, i);
        w.coeffs[i] = x as i32;
    }
    w
}

/// FIPS 204, Algorithm 19 — BitUnpack: reverse BitPack.
pub fn bit_unpack(v: &[u8], a: u32, b: u32) -> (w: Poly)
    requires
        a + b < 0x8000_0000,
        v@.len() >= 32 * bitlen_spec((a + b) as nat),
        8 * v@.len() <= usize::MAX,
    ensures
        forall|i: int|
            0 <= i < N ==> w.coeffs@[i] == b - read_value(v@, bitlen_spec((a + b) as nat), i),
{
    let c = bitlen(a + b) as usize;
    proof {
        vstd::arithmetic::power2::lemma2_to64();
        lemma_bitlen_bound((a + b) as nat, 31);
        if c < 31 {
            vstd::arithmetic::power2::lemma_pow2_strictly_increases(c as nat, 31);
        }
    }
    let z = bytes_to_bits(v);
    let mut w = Poly::zero();
    for i in 0..N
        invariant
            c == bitlen_spec((a + b) as nat),
            c <= 31,
            pow2(c as nat) <= 0x8000_0000,
            b < 0x8000_0000,
            z@ == bytes_to_bits_spec(v@),
            is_bit_string(z@),
            z@.len() >= N * c,
            forall|j: int|
                0 <= j < i ==> w.coeffs@[j] == b - read_value(v@, c as nat, j),
    {
        let x = read_field(&z, c, i);
        w.coeffs[i] = b as i32 - x as i32;
    }
    w
}

/// Field `i` of packed values reads back as value `i`, when each value fits in `c` bits.
proof fn lemma_read_packed(vals: Seq<nat>, c: nat, i: int)
    requires
        vals.len() == N,
        0 <= i < N,
        vals[i] < pow2(c),
    ensures
        read_value(packed_bytes(vals, c), c, i) == vals[i],
{
    let y = values_to_bits(vals, c);
    lemma_values_to_bits_is_bit_string(vals, c);
    assert(y.len() == 8 * (32 * c));
    lemma_bytes_to_bits_of_bits_to_bytes(y);
    lemma_values_to_bits_field(vals, c, i);
    lemma_bits_value_of_int(vals[i], c);
    vstd::arithmetic::div_mod::lemma_small_mod(vals[i], pow2(c));
}

/// Packing the values read out of `32·c` bytes gives the bytes back.
proof fn lemma_pack_read_values(v: Seq<u8>, c: nat, vals: Seq<nat>)
    requires
        v.len() == 32 * c,
        vals.len() == N,
        forall|i: int| 0 <= i < N ==> #[trigger] vals[i] == read_value(v, c, i),
    ensures
        packed_bytes(vals, c) == v,
{
    let z = bytes_to_bits_spec(v);
    let y = values_to_bits(vals, c);
    assert(z.len() == N * c);
    if c > 0 {
        assert forall|k: int| 0 <= k < y.len() implies y[k] == z[k] by {
            lemma_split_index(k, c as int, N as int);
            let q = k / (c as int);
            let r = k % (c as int);
            let field = z.subrange(q * c, q * c + c);
            assert(q * c + c <= N * c) by (nonlinear_arith)
                requires
                    0 <= q < N,
            ;
            assert(is_bit_string(field)) by {
                assert forall|t: int| 0 <= t < field.len() implies #[trigger] field[t] == 0
                    || field[t] == 1 by {
                    assert(field[t] == z[q * c + t]);
                    assert(z[q * c + t] == bit_of(v[(q * c + t) / 8] as nat, ((q * c + t) % 8) as nat));
                    lemma_bit_of_is_bit(v[(q * c + t) / 8] as nat, ((q * c + t) % 8) as nat);
                }
            }
            assert(vals[q] == bits_value(field));
            lemma_bit_of_bits_value(field, r);
        }
    }
    assert(y =~= z);
    lemma_bits_to_bytes_of_bytes_to_bits(v);
}

/// SimpleBitUnpack inverts SimpleBitPack on coefficients in `[0, b]`.
pub proof fn lemma_simple_bit_unpack_of_pack(w: Seq<i32>, b: u32)
    requires
        w.len() == N,
        forall|i: int| 0 <= i < N ==> 0 <= #[trigger] w[i] <= b,
    ensures
        packed_bytes(simple_pack_values(w), bitlen_spec(b as nat)).len() == 32 * bitlen_spec(
            b as nat,
        ),
        forall|i: int|
            0 <= i < N ==> read_value(
                packed_bytes(simple_pack_values(w), bitlen_spec(b as nat)),
                bitlen_spec(b as nat),
                i,
            ) as i32 == #[trigger] w[i],
{
    let c = bitlen_spec(b as nat);
    let vals = simple_pack_values(w);
    lemma_packed_len(vals, c);
    lemma_lt_pow2_bitlen(b as nat);
    assert forall|i: int| 0 <= i < N implies read_value(packed_bytes(vals, c), c, i) as i32
        == #[trigger] w[i] by {
        assert(vals[i] == w[i]);
        lemma_read_packed(vals, c, i);
    }
}

/// BitUnpack inverts BitPack on coefficients in `[−a, b]`.
pub proof fn lemma_bit_unpack_of_pack(w: Seq<i32>, a: u32, b: u32)
    requires
        w.len() == N,
        a + b < 0x8000_0000,
        forall|i: int| 0 <= i < N ==> -a <= #[trigger] w[i] <= b,
    ensures
        packed_bytes(signed_pack_values(w, b), bitlen_spec((a + b) as nat)).len() == 32
            * bitlen_spec((a + b) as nat),
        forall|i: int|
            0 <= i < N ==> b - read_value(
                packed_bytes(signed_pack_values(w, b), bitlen_spec((a + b) as nat)),
                bitlen_spec((a + b) as nat),
                i,
            ) == #[trigger] w[i],
{
    let c = bitlen_spec((a + b) as nat);
    let vals = signed_pack_values(w, b);
    lemma_packed_len(vals, c);
    lemma_lt_pow2_bitlen((a + b) as nat);
    assert forall|i: int| 0 <= i < N implies b - read_value(packed_bytes(vals, c), c, i)
        == #[trigger] w[i] by {
        assert(vals[i] == b - w[i]);
        lemma_read_packed(vals, c, i);
    }
}

/// SimpleBitPack of what SimpleBitUnpack reads from `32·bitlen(b)` bytes gives the bytes
/// back: every such byte string is a canonical encoding.
pub proof fn lemma_simple_bit_pack_of_unpack(v: Seq<u8>, b: u32)
    requires
        v.len() == 32 * bitlen_spec(b as nat),
        b < 0x8000_0000,
    ensures
        packed_bytes(
            simple_pack_values(
                Seq::new(N as nat, |i: int| read_value(v, bitlen_spec(b as nat), i) as i32),
            ),
            bitlen_spec(b as nat),
        ) == v,
{
    let c = bitlen_spec(b as nat);
    let w = Seq::new(N as nat, |i: int| read_value(v, c, i) as i32);
    let vals = simple_pack_values(w);
    lemma_read_values_bound(v, c, b as nat);
    assert forall|i: int| 0 <= i < N implies #[trigger] vals[i] == read_value(v, c, i) by {
        assert(read_value(v, c, i) < 0x8000_0000);
    }
    lemma_pack_read_values(v, c, vals);
}

/// BitPack of what BitUnpack reads from `32·bitlen(a + b)` bytes gives the bytes back.
pub proof fn lemma_bit_pack_of_unpack(v: Seq<u8>, a: u32, b: u32)
    requires
        v.len() == 32 * bitlen_spec((a + b) as nat),
        a + b < 0x8000_0000,
    ensures
        packed_bytes(
            signed_pack_values(
                Seq::new(
                    N as nat,
                    |i: int| (b - read_value(v, bitlen_spec((a + b) as nat), i)) as i32,
                ),
                b,
            ),
            bitlen_spec((a + b) as nat),
        ) == v,
{
    let c = bitlen_spec((a + b) as nat);
    let w = Seq::new(N as nat, |i: int| (b - read_value(v, c, i)) as i32);
    let vals = signed_pack_values(w, b);
    lemma_read_values_bound(v, c, (a + b) as nat);
    assert forall|i: int| 0 <= i < N implies #[trigger] vals[i] == read_value(v, c, i) by {
        assert(read_value(v, c, i) < 0x8000_0000);
    }
    lemma_pack_read_values(v, c, vals);
}

/// Every field read out of `32·bitlen(m)` bytes is below `2^31` when `m < 2^31`.
proof fn lemma_read_values_bound(v: Seq<u8>, c: nat, m: nat)
    requires
        c == bitlen_spec(m),
        m < 0x8000_0000,
        v.len() == 32 * c,
    ensures
        forall|i: int| 0 <= i < N ==> #[trigger] read_value(v, c, i) < 0x8000_0000,
{
    vstd::arithmetic::power2::lemma2_to64();
    lemma_bitlen_bound(m, 31);
    if c < 31 {
        vstd::arithmetic::power2::lemma_pow2_strictly_increases(c, 31);
    }
    assert forall|i: int| 0 <= i < N implies #[trigger] read_value(v, c, i) < 0x8000_0000 by {
        let z = bytes_to_bits_spec(v);
        assert(i * c + c <= N * c) by (nonlinear_arith)
            requires
                0 <= i < N,
        ;
        let field = z.subrange(i * c, i * c + c);
        assert(is_bit_string(field)) by {
            assert forall|t: int| 0 <= t < field.len() implies #[trigger] field[t] == 0
                || field[t] == 1 by {
                assert(field[t] == z[i * c + t]);
                lemma_bit_of_is_bit(v[(i * c + t) / 8] as nat, ((i * c + t) % 8) as nat);
            }
        }
        lemma_bits_value_bound(field);
    }
}

/// A field read out of `v` spells a value below `2^c`.
pub proof fn lemma_read_value_lt(v: Seq<u8>, c: nat, i: int)
    requires
        0 <= i,
        i * c + c <= 8 * v.len(),
    ensures
        read_value(v, c, i) < pow2(c),
{
    let z = bytes_to_bits_spec(v);
    assert(0 <= i * c) by (nonlinear_arith)
        requires
            0 <= i,
    ;
    let field = z.subrange(i * c, i * c + c);
    assert(is_bit_string(field)) by {
        assert forall|t: int| 0 <= t < field.len() implies #[trigger] field[t] == 0 || field[t]
            == 1 by {
            assert(field[t] == z[i * c + t]);
            lemma_bit_of_is_bit(v[(i * c + t) / 8] as nat, ((i * c + t) % 8) as nat);
        }
    }
    lemma_bits_value_bound(field);
}

} // verus!
