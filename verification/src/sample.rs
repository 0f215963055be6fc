//! FIPS 204 §7.3 — pseudorandom sampling (Algorithms 29–31).
//!
//! `RejNTTPoly` / `RejBoundedPoly` reject on public seed-derived bytes, so their
//! data-dependent loop counts are acceptable. The inner loop of `SampleInBall` leaks
//! only its count per signing call.
//!
//! Each loop reads the XOF stream for as long as the algorithm asks, up to a budget
//! of `STREAM_BUDGET` reads (about 1.8·10^19; the algorithms need a few hundred in
//! all but a vanishing fraction of cases). The specifications below follow the stream
//! the same way, budget included.
use crate::encoding::{
    bit_of, bytes_to_bits, bytes_to_bits_spec, coeff_from_half_byte, coeff_from_three_bytes, half_byte_coeff, three_bytes_value,
};
use crate::hash::{
    g_reader_input, g_reader_pos, h_reader_input, h_reader_pos, shake128_byte, shake256_byte, G,
    GReader, H, HReader,
};
use crate::params::{lemma_valid, ParameterSet, N, Q};
use crate::poly::{Poly, PolyNTT};
use vstd::prelude::*;

verus! {

/// The number of stream reads a sampling loop may make.
pub const STREAM_BUDGET: u64 = 0xFFFF_FFFF_FFFF_FFFF;

/// The value of triple `t` of the SHAKE128 stream of `input` (CoeffFromThreeBytes).
pub open spec fn triple_value(input: Seq<u8>, t: int) -> int {
    three_bytes_value(
        shake128_byte(input, 3 * t),
        shake128_byte(input, 3 * t + 1),
        shake128_byte(input, 3 * t + 2),
    )
}

/// RejNTTPoly's accepted coefficients after reading the first `t` triples: each value
/// below `q` is kept, until 256 are kept.
pub open spec fn rej_ntt_scan(input: Seq<u8>, t: nat) -> Seq<int>
    decreases t,
{
    if t == 0 {
        Seq::empty()
    } else {
        let prev = rej_ntt_scan(input, (t - 1) as nat);
        let v = triple_value(input, t - 1);
        if prev.len() < N && v < Q {
            prev.push(v)
        } else {
            prev
        }
    }
}

/// RejNTTPoly's output: the kept coefficients, in order (zero past the last one kept).
pub open spec fn rej_ntt_coeffs(input: Seq<u8>) -> Seq<int> {
    let s = rej_ntt_scan(input, STREAM_BUDGET as nat);
    Seq::new(N as nat, |k: int| if k < s.len() { s[k] } else { 0 })
}

/// The scan never keeps more than 256 values, all in `[0, q)`, and stops growing at 256.
proof fn lemma_rej_ntt_scan(input: Seq<u8>, t: nat, u: nat)
    requires
        t <= u,
    ensures
        rej_ntt_scan(input, t).len() <= N,
        rej_ntt_scan(input, t).len() <= rej_ntt_scan(input, u).len(),
        forall|k: int|
            0 <= k < rej_ntt_scan(input, t).len() ==> 0 <= #[trigger] rej_ntt_scan(input, t)[k] < Q,
        forall|k: int|
            0 <= k < rej_ntt_scan(input, t).len() ==> #[trigger] rej_ntt_scan(input, u)[k]
                == rej_ntt_scan(input, t)[k],
        rej_ntt_scan(input, t).len() == N ==> rej_ntt_scan(input, u) == rej_ntt_scan(input, t),
    decreases u,
{
    if u > t {
        lemma_rej_ntt_scan(input, t, (u - 1) as nat);
    } else if t > 0 {
        lemma_rej_ntt_scan(input, (t - 1) as nat, (t - 1) as nat);
        let prev = rej_ntt_scan(input, (t - 1) as nat);
        let v = triple_value(input, t - 1);
        assert(0 <= v);
    }
}

/// FIPS 204, Algorithm 30 — RejNTTPoly: `â ∈ T_q` from a public 34-byte seed.
pub fn rej_ntt_poly(rho: &[u8; 34]) -> (a: PolyNTT)
    ensures
        forall|k: int| 0 <= k < N ==> #[trigger] a.coeffs@[k] == rej_ntt_coeffs(rho@)[k],
        forall|k: int| 0 <= k < N ==> 0 <= #[trigger] a.coeffs@[k] < Q,
{
    let mut a = PolyNTT::zero();
    let mut g = G::init();
    g.absorb(rho.as_slice());
    let mut reader = g.finalize();
    let mut j: usize = 0;
    let mut t: u64 = 0;
    let mut s = [0u8; 3];
    while j < N && t < STREAM_BUDGET
        invariant
            g_reader_input(reader) == rho@,
            g_reader_pos(reader) == 3 * t,
            j == rej_ntt_scan(rho@, t as nat).len(),
            j <= N,
            forall|k: int| 0 <= k < j ==> #[trigger] a.coeffs@[k] == rej_ntt_scan(rho@, t as nat)[k],
            forall|k: int| j <= k < N ==> #[trigger] a.coeffs@[k] == 0,
        decreases STREAM_BUDGET - t,
    {
        proof {
            lemma_rej_ntt_scan(rho@, t as nat, t as nat);
        }
        reader.squeeze(&mut s);
        let ghost prev = rej_ntt_scan(rho@, t as nat);
        let ghost v = triple_value(rho@, t as int);
        assert(s@[0] == shake128_byte(rho@, 3 * t) && s@[1] == shake128_byte(rho@, 3 * t + 1)
            && s@[2] == shake128_byte(rho@, 3 * t + 2));
        if let Some(coeff) = coeff_from_three_bytes(s[0], s[1], s[2]) {
            a.coeffs[j] = coeff;
            j += 1;
        }
        t += 1;
        assert(rej_ntt_scan(rho@, t as nat) == (if prev.len() < N && v < Q {
            prev.push(v)
        } else {
            prev
        }));
    }
    proof {
        lemma_rej_ntt_scan(rho@, t as nat, STREAM_BUDGET as nat);
        let fin = rej_ntt_scan(rho@, STREAM_BUDGET as nat);
        lemma_rej_ntt_scan(rho@, STREAM_BUDGET as nat, STREAM_BUDGET as nat);
        assert forall|k: int| 0 <= k < N implies #[trigger] a.coeffs@[k] == rej_ntt_coeffs(
            rho@,
        )[k] && 0 <= a.coeffs@[k] < Q by {
            if k < j {
                assert(fin[k] == rej_ntt_scan(rho@, t as nat)[k]);
            } else if t == STREAM_BUDGET {
                assert(fin == rej_ntt_scan(rho@, t as nat));
            } else {
                assert(fin == rej_ntt_scan(rho@, t as nat));
            }
        }
    }
    a
}

/// RejBoundedPoly's kept coefficients after reading the first `t` bytes of the SHAKE256
/// stream of `input`: each byte offers its low nibble, then its high nibble, to
/// CoeffFromHalfByte, and accepted values are kept until 256 are kept.
pub open spec fn rej_bounded_scan<P: ParameterSet>(input: Seq<u8>, t: nat) -> Seq<int>
    decreases t,
{
    if t == 0 {
        Seq::empty()
    } else {
        let prev = rej_bounded_scan::<P>(input, (t - 1) as nat);
        let b = shake256_byte(input, t - 1);
        let s0 = match half_byte_coeff::<P>(b % 16) {
            Some(v) => if prev.len() < N {
                prev.push(v as int)
            } else {
                prev
            },
            None => prev,
        };
        match half_byte_coeff::<P>(b / 16) {
            Some(v) => if s0.len() < N {
                s0.push(v as int)
            } else {
                s0
            },
            None => s0,
        }
    }
}

/// RejBoundedPoly's output: the kept coefficients, in order (zero past the last one kept).
pub open spec fn rej_bounded_coeffs<P: ParameterSet>(input: Seq<u8>) -> Seq<int> {
    let s = rej_bounded_scan::<P>(input, STREAM_BUDGET as nat);
    Seq::new(N as nat, |k: int| if k < s.len() { s[k] } else { 0 })
}

/// A CoeffFromHalfByte value lies in `[−η, η]`.
proof fn lemma_half_byte_range<P: ParameterSet>(b: u8)
    ensures
        half_byte_coeff::<P>(b) matches Some(v) ==> -P::ETA <= v <= P::ETA,
{
}

/// The scan never keeps more than 256 values, all in `[−η, η]`, and stops growing at 256.
proof fn lemma_rej_bounded_scan<P: ParameterSet>(input: Seq<u8>, t: nat, u: nat)
    requires
        t <= u,
    ensures
        rej_bounded_scan::<P>(input, t).len() <= N,
        rej_bounded_scan::<P>(input, t).len() <= rej_bounded_scan::<P>(input, u).len(),
        forall|k: int|
            0 <= k < rej_bounded_scan::<P>(input, t).len() ==> -P::ETA <= #[trigger] rej_bounded_scan::<
                P,
            >(input, t)[k] <= P::ETA,
        forall|k: int|
            0 <= k < rej_bounded_scan::<P>(input, t).len() ==> #[trigger] rej_bounded_scan::<P>(
                input,
                u,
            )[k] == rej_bounded_scan::<P>(input, t)[k],
        rej_bounded_scan::<P>(input, t).len() == N ==> rej_bounded_scan::<P>(input, u)
            == rej_bounded_scan::<P>(input, t),
    decreases u,
{
    if u > t {
        lemma_rej_bounded_scan::<P>(input, t, (u - 1) as nat);
        let prev = rej_bounded_scan::<P>(input, (u - 1) as nat);
        let b = shake256_byte(input, u - 1);
        lemma_half_byte_range::<P>(b % 16);
        lemma_half_byte_range::<P>(b / 16);
    } else if t > 0 {
        lemma_rej_bounded_scan::<P>(input, (t - 1) as nat, (t - 1) as nat);
        let b = shake256_byte(input, t - 1);
        lemma_half_byte_range::<P>(b % 16);
        lemma_half_byte_range::<P>(b / 16);
    }
}

/// FIPS 204, Algorithm 31 — RejBoundedPoly: `a ∈ R`, coeffs in `[−η, η]`, 66-byte seed.
pub fn rej_bounded_poly<P: ParameterSet>(rho: &[u8; 66]) -> (a: Poly)
    ensures
        forall|k: int| 0 <= k < N ==> #[trigger] a.coeffs@[k] == rej_bounded_coeffs::<P>(rho@)[k],
        forall|k: int| 0 <= k < N ==> -P::ETA <= #[trigger] a.coeffs@[k] <= P::ETA,
{
    proof {
        lemma_valid::<P>();
    }
    let mut a = Poly::zero();
    let mut h = H::init();
    h.absorb(rho.as_slice());
    let mut reader = h.finalize();
    let mut j: usize = 0;
    let mut t: u64 = 0;
    let mut z = [0u8; 1];
    while j < N && t < STREAM_BUDGET
        invariant
            h_reader_input(reader) == rho@,
            h_reader_pos(reader) == t,
            j == rej_bounded_scan::<P>(rho@, t as nat).len(),
            j <= N,
            forall|k: int|
                0 <= k < j ==> #[trigger] a.coeffs@[k] == rej_bounded_scan::<P>(rho@, t as nat)[k],
            forall|k: int| j <= k < N ==> #[trigger] a.coeffs@[k] == 0,
        decreases STREAM_BUDGET - t,
    {
        reader.squeeze(&mut z);
        let ghost prev = rej_bounded_scan::<P>(rho@, t as nat);
        let ghost b = shake256_byte(rho@, t as int);
        assert(z@[0] == b);
        let z0 = coeff_from_half_byte::<P>(z[0] % 16);
        let z1 = coeff_from_half_byte::<P>(z[0] / 16);
        let ghost s0 = match half_byte_coeff::<P>(b % 16) {
            Some(v) => if prev.len() < N {
                prev.push(v as int)
            } else {
                prev
            },
            None => prev,
        };
        if let Some(v) = z0 {
            a.coeffs[j] = v;
            j += 1;
        }
        assert(j == s0.len());
        assert(forall|k: int| 0 <= k < j ==> #[trigger] a.coeffs@[k] == s0[k]);
        if let Some(v) = z1 {
            if j < N {
                a.coeffs[j] = v;
                j += 1;
            }
        }
        t += 1;
        assert(rej_bounded_scan::<P>(rho@, t as nat) == match half_byte_coeff::<P>(b / 16) {
            Some(v) => if s0.len() < N {
                s0.push(v as int)
            } else {
                s0
            },
            None => s0,
        });
    }
    proof {
        lemma_rej_bounded_scan::<P>(rho@, t as nat, STREAM_BUDGET as nat);
        let fin = rej_bounded_scan::<P>(rho@, STREAM_BUDGET as nat);
        lemma_rej_bounded_scan::<P>(rho@, STREAM_BUDGET as nat, STREAM_BUDGET as nat);
        assert forall|k: int| 0 <= k < N implies #[trigger] a.coeffs@[k] == rej_bounded_coeffs::<P>(
            rho@,
        )[k] && -P::ETA <= a.coeffs@[k] <= P::ETA by {
            if k < j {
                assert(fin[k] == rej_bounded_scan::<P>(rho@, t as nat)[k]);
            } else {
                assert(fin == rej_bounded_scan::<P>(rho@, t as nat));
            }
        }
    }
    a
}

/// Sign `k` of SampleInBall: `(−1)^h` for bit `k` of the first 8 stream bytes.
pub open spec fn ball_sign(input: Seq<u8>, k: int) -> int {
    if bit_of(shake256_byte(input, k / 8) as nat, (k % 8) as nat) == 1 {
        -1
    } else {
        1
    }
}

/// SampleInBall's draw of a position in `{0, …, i}` from stream position `p`: the first
/// byte at most `i`, with the stream position after it (`i` once the budget runs out).
pub open spec fn ball_draw(input: Seq<u8>, p: nat, i: int) -> (int, nat)
    decreases STREAM_BUDGET - p,
{
    if p >= STREAM_BUDGET {
        (i, p)
    } else {
        let b = shake256_byte(input, p as int) as int;
        if b <= i {
            (b, p + 1)
        } else {
            ball_draw(input, p + 1, i)
        }
    }
}

/// SampleInBall's coefficients and stream position after the first `k` of its `τ` steps:
/// step `k` draws `j ≤ i = 256 − τ + k`, moves `c[j]` to `c[i]` and puts sign `k` at `c[j]`.
pub open spec fn ball_state<P: ParameterSet>(input: Seq<u8>, k: nat) -> (Seq<int>, nat)
    decreases k,
{
    if k == 0 {
        (Seq::new(N as nat, |x: int| 0int), 8)
    } else {
        let (c, p) = ball_state::<P>(input, (k - 1) as nat);
        let i = N - P::TAU + k - 1;
        let (j, p2) = ball_draw(input, p, i);
        (c.update(i, c[j]).update(j, ball_sign(input, k - 1)), p2)
    }
}

/// SampleInBall's output coefficients.
pub open spec fn ball_coeffs<P: ParameterSet>(input: Seq<u8>) -> Seq<int> {
    ball_state::<P>(input, P::TAU as nat).0
}

/// The number of nonzero entries among `c[0..n]`.
pub open spec fn nonzero_count(c: Seq<int>, n: int) -> nat
    decreases n,
{
    if n <= 0 {
        0
    } else {
        nonzero_count(c, n - 1) + if c[n - 1] != 0 {
            1nat
        } else {
            0nat
        }
    }
}

/// Overwriting entry `x` changes the count by what it removes and what it adds.
proof fn lemma_count_update(c: Seq<int>, x: int, v: int, n: int)
    requires
        0 <= x < n <= c.len(),
    ensures
        nonzero_count(c.update(x, v), n) + (if c[x] != 0 {
            1nat
        } else {
            0nat
        }) == nonzero_count(c, n) + (if v != 0 {
            1nat
        } else {
            0nat
        }),
    decreases n,
{
    if n - 1 > x {
        lemma_count_update(c, x, v, n - 1);
    } else {
        assert(c.update(x, v).subrange(0, x) =~= c.subrange(0, x));
        lemma_count_prefix(c, c.update(x, v), x);
    }
}

/// Sequences that agree below `n` have the same count there.
proof fn lemma_count_prefix(a: Seq<int>, b: Seq<int>, n: int)
    requires
        0 <= n <= a.len(),
        n <= b.len(),
        forall|k: int| 0 <= k < n ==> a[k] == b[k],
    ensures
        nonzero_count(a, n) == nonzero_count(b, n),
    decreases n,
{
    if n > 0 {
        lemma_count_prefix(a, b, n - 1);
    }
}

/// A draw is a position in `{0, …, i}` and never moves the stream backwards.
proof fn lemma_ball_draw(input: Seq<u8>, p: nat, i: int)
    requires
        0 <= i,
    ensures
        0 <= ball_draw(input, p, i).0 <= i,
        ball_draw(input, p, i).1 >= p,
    decreases STREAM_BUDGET - p,
{
    if p < STREAM_BUDGET {
        let b = shake256_byte(input, p as int) as int;
        if b > i {
            lemma_ball_draw(input, p + 1, i);
        }
    }
}

/// After `k` steps: `k` nonzero coefficients, each `±1`, none at or beyond `256 − τ + k`.
proof fn lemma_ball_state<P: ParameterSet>(input: Seq<u8>, k: nat)
    requires
        P::TAU <= N,
        k <= P::TAU,
    ensures
        ball_state::<P>(input, k).0.len() == N,
        forall|x: int| 0 <= x < N ==> -1 <= #[trigger] ball_state::<P>(input, k).0[x] <= 1,
        forall|x: int| N - P::TAU + k <= x < N ==> #[trigger] ball_state::<P>(input, k).0[x] == 0,
        nonzero_count(ball_state::<P>(input, k).0, N as int) == k,
    decreases k,
{
    if k == 0 {
        let c = ball_state::<P>(input, 0).0;
        assert forall|n: int| 0 <= n <= N implies nonzero_count(c, n) == 0 by {
            lemma_count_zero(c, n);
        }
    } else {
        lemma_ball_state::<P>(input, (k - 1) as nat);
        let (c, p) = ball_state::<P>(input, (k - 1) as nat);
        let i = N - P::TAU + k - 1;
        lemma_ball_draw(input, p, i);
        let (j, p2) = ball_draw(input, p, i);
        let sgn = ball_sign(input, k - 1);
        let c1 = c.update(i, c[j]);
        let c2 = c1.update(j, sgn);
        assert(c[i] == 0);
        lemma_count_update(c, i, c[j], N as int);
        lemma_count_update(c1, j, sgn, N as int);
        if j == i {
            assert(c1 =~= c);
        }
    }
}

/// The all-zero sequence has no nonzero entries.
proof fn lemma_count_zero(c: Seq<int>, n: int)
    requires
        0 <= n <= c.len(),
        forall|k: int| 0 <= k < n ==> c[k] == 0,
    ensures
        nonzero_count(c, n) == 0,
    decreases n,
{
    if n > 0 {
        lemma_count_zero(c, n - 1);
    }
}

/// RejBoundedPoly's coefficients lie in `[−η, η]`.
pub(crate) proof fn lemma_rej_bounded_coeffs_range<P: ParameterSet>(input: Seq<u8>)
    ensures
        rej_bounded_coeffs::<P>(input).len() == N,
        forall|k: int|
            0 <= k < N ==> -P::ETA <= #[trigger] rej_bounded_coeffs::<P>(input)[k] <= P::ETA,
{
    lemma_valid::<P>();
    lemma_rej_bounded_scan::<P>(input, STREAM_BUDGET as nat, STREAM_BUDGET as nat);
}

/// SampleInBall's coefficients: 256 values in `{−1, 0, 1}`, exactly `τ` of them nonzero.
pub(crate) proof fn lemma_ball_coeffs_shape<P: ParameterSet>(input: Seq<u8>)
    ensures
        ball_coeffs::<P>(input).len() == N,
        forall|x: int| 0 <= x < N ==> -1 <= #[trigger] ball_coeffs::<P>(input)[x] <= 1,
        nonzero_count(ball_coeffs::<P>(input), N as int) == P::TAU,
{
    lemma_valid::<P>();
    lemma_ball_state::<P>(input, P::TAU as nat);
}

/// The coefficients of a polynomial, as integers.
pub open spec fn poly_ints(c: Poly) -> Seq<int> {
    Seq::new(N as nat, |k: int| c.coeffs@[k] as int)
}

/// FIPS 204, Algorithm 29 — SampleInBall: `c ∈ R` with `τ` coefficients in `{−1, 1}` and
/// the rest zero. `rho` is the commitment hash `c~`.
pub fn sample_in_ball<P: ParameterSet>(rho: &[u8]) -> (c: Poly)
    ensures
        forall|k: int| 0 <= k < N ==> #[trigger] c.coeffs@[k] == ball_coeffs::<P>(rho@)[k],
        forall|k: int| 0 <= k < N ==> -1 <= #[trigger] c.coeffs@[k] <= 1,
        nonzero_count(poly_ints(c), N as int) == P::TAU,
        ball_coeffs::<P>(rho@).len() == N,
{
    proof {
        lemma_valid::<P>();
    }
    let tau = P::TAU;
    let mut c = Poly::zero();
    let mut h = H::init();
    h.absorb(rho);
    let mut reader = h.finalize();
    let mut s = [0u8; 8];
    reader.squeeze(&mut s);
    let hbits = bytes_to_bits(s.as_slice());
    let mut byte = [0u8; 1];
    let mut pos: u64 = 8;
    assert(c.coeffs@ =~= ball_state::<P>(rho@, 0).0.map_values(|x: int| x as i32));
    for i in (N - tau)..N
        invariant
            tau == P::TAU,
            tau <= 60,
            h_reader_input(reader) == rho@,
            h_reader_pos(reader) == pos,
            hbits@ == bytes_to_bits_spec(s@),
            forall|m: int| 0 <= m < 8 ==> #[trigger] s@[m] == shake256_byte(rho@, m),
            pos == ball_state::<P>(rho@, (i - (N - tau)) as nat).1,
            forall|x: int|
                0 <= x < N ==> #[trigger] c.coeffs@[x] == ball_state::<P>(
                    rho@,
                    (i - (N - tau)) as nat,
                ).0[x],
    {
        let ghost k = (i - (N - tau)) as nat;
        let ghost p0 = pos;
        proof {
            lemma_ball_state::<P>(rho@, k);
        }
        let mut j: usize = i;
        if pos < STREAM_BUDGET {
            reader.squeeze(&mut byte);
            pos += 1;
            j = byte[0] as usize;
            while j > i && pos < STREAM_BUDGET
                invariant
                    i < N,
                    h_reader_input(reader) == rho@,
                    h_reader_pos(reader) == pos,
                    j <= i ==> ball_draw(rho@, p0 as nat, i as int) == (j as int, pos as nat),
                    j > i ==> ball_draw(rho@, p0 as nat, i as int) == ball_draw(
                        rho@,
                        pos as nat,
                        i as int,
                    ),
                    j < 256,
                decreases STREAM_BUDGET - pos,
            {
                reader.squeeze(&mut byte);
                pos += 1;
                j = byte[0] as usize;
            }
            if j > i {
                j = i;
            }
        }
        assert(ball_draw(rho@, p0 as nat, i as int) == (j as int, pos as nat));
        let ghost st = ball_state::<P>(rho@, k);
        let v = c.coeffs[j];
        c.coeffs[i] = v;
        let sgn: i32 = if hbits[i + tau - N] == 1 {
            -1
        } else {
            1
        };
        c.coeffs[j] = sgn;
        proof {
            let kk = (k + 1) as nat;
            assert(kk - 1 == k);
            assert(i + tau - N == k);
            assert(hbits@[k as int] == bit_of(s@[(k / 8) as int] as nat, (k % 8) as nat));
            assert(sgn == ball_sign(rho@, k as int));
            assert(ball_state::<P>(rho@, kk) == (st.0.update(i as int, st.0[j as int]).update(
                j as int,
                ball_sign(rho@, k as int),
            ), pos as nat));
        }
    }
    proof {
        lemma_ball_state::<P>(rho@, tau as nat);
        assert(poly_ints(c) =~= ball_coeffs::<P>(rho@));
    }
    c
}

/// Bit `k` of the SHAKE256 stream of `input`, counting from the least significant bit of
/// byte 0: SampleInBall's sign bits are bits `0..τ` of the first eight bytes.
pub open spec fn stream_bit(input: Seq<u8>, k: int) -> nat {
    (shake256_byte(input, k / 8) as nat / vstd::arithmetic::power2::pow2((k % 8) as nat)) % 2
}

/// How many of the stream bits `0..k` are set.
pub open spec fn stream_bits_set(input: Seq<u8>, k: nat) -> nat
    decreases k,
{
    if k == 0 {
        0
    } else {
        stream_bits_set(input, (k - 1) as nat) + stream_bit(input, k - 1)
    }
}

/// The number of entries of `c[0..n]` equal to `v`.
pub open spec fn value_count(c: Seq<int>, n: int, v: int) -> nat
    decreases n,
{
    if n <= 0 {
        0
    } else {
        value_count(c, n - 1, v) + if c[n - 1] == v {
            1nat
        } else {
            0nat
        }
    }
}

/// Overwriting entry `x` changes the count of `v` by what it removes and what it adds.
proof fn lemma_value_count_update(c: Seq<int>, x: int, w: int, n: int, v: int)
    requires
        0 <= x < n <= c.len(),
    ensures
        value_count(c.update(x, w), n, v) + (if c[x] == v {
            1nat
        } else {
            0nat
        }) == value_count(c, n, v) + (if w == v {
            1nat
        } else {
            0nat
        }),
    decreases n,
{
    if n - 1 > x {
        lemma_value_count_update(c, x, w, n - 1, v);
    } else {
        lemma_value_count_prefix(c, c.update(x, w), x, v);
    }
}

/// Sequences that agree below `n` have the same count of `v` there.
proof fn lemma_value_count_prefix(a: Seq<int>, b: Seq<int>, n: int, v: int)
    requires
        0 <= n <= a.len(),
        n <= b.len(),
        forall|k: int| 0 <= k < n ==> a[k] == b[k],
    ensures
        value_count(a, n, v) == value_count(b, n, v),
    decreases n,
{
    if n > 0 {
        lemma_value_count_prefix(a, b, n - 1, v);
    }
}

/// A nonzero value does not occur in the all-zero sequence.
proof fn lemma_value_count_zero(c: Seq<int>, n: int, v: int)
    requires
        0 <= n <= c.len(),
        v != 0,
        forall|k: int| 0 <= k < n ==> c[k] == 0,
    ensures
        value_count(c, n, v) == 0,
    decreases n,
{
    if n > 0 {
        lemma_value_count_zero(c, n - 1, v);
    }
}

/// After `k` steps, the `−1`s count the set sign bits among the first `k` and the `+1`s
/// the clear ones.
proof fn lemma_ball_state_signs<P: ParameterSet>(input: Seq<u8>, k: nat)
    requires
        P::TAU <= N,
        k <= P::TAU,
    ensures
        value_count(ball_state::<P>(input, k).0, N as int, -1) == stream_bits_set(input, k),
        value_count(ball_state::<P>(input, k).0, N as int, 1) + stream_bits_set(input, k) == k,
    decreases k,
{
    lemma_ball_state::<P>(input, k);
    if k == 0 {
        let c = ball_state::<P>(input, 0).0;
        lemma_value_count_zero(c, N as int, -1);
        lemma_value_count_zero(c, N as int, 1);
    } else {
        lemma_ball_state_signs::<P>(input, (k - 1) as nat);
        lemma_ball_state::<P>(input, (k - 1) as nat);
        let (c, p) = ball_state::<P>(input, (k - 1) as nat);
        let i = N - P::TAU + k - 1;
        lemma_ball_draw(input, p, i);
        let (j, p2) = ball_draw(input, p, i);
        let sgn = ball_sign(input, k - 1);
        let c1 = c.update(i, c[j]);
        assert(c[i] == 0);
        assert(c1[j] == c[j]);
        lemma_value_count_update(c, i, c[j], N as int, -1);
        lemma_value_count_update(c, i, c[j], N as int, 1);
        lemma_value_count_update(c1, j, sgn, N as int, -1);
        lemma_value_count_update(c1, j, sgn, N as int, 1);
        let bit = stream_bit(input, k - 1);
        assert(bit == 0 || bit == 1);
        assert(sgn == -1 <==> bit == 1);
    }
}

/// SampleInBall's signs: the challenge has one `−1` for each set bit among the `τ` sign
/// bits (bits `0..τ` of the first eight bytes of SHAKE256(ρ)) and one `+1` for each clear
/// one — FIPS 204 Algorithm 29 line 12, `c_j ← (−1)^{h[i+τ−256]}`.
pub proof fn lemma_sample_in_ball_signs<P: ParameterSet>(input: Seq<u8>)
    ensures
        value_count(ball_coeffs::<P>(input), N as int, -1) == stream_bits_set(input, P::TAU as nat),
        value_count(ball_coeffs::<P>(input), N as int, 1) == P::TAU - stream_bits_set(
            input,
            P::TAU as nat,
        ),
{
    lemma_valid::<P>();
    lemma_ball_state_signs::<P>(input, P::TAU as nat);
}

/// Nibble `t` of the SHAKE256 stream of `input`: the low nibble (`z mod 16`) of byte
/// `t / 2` for even `t`, its high nibble (`z div 16`) for odd `t`.
pub open spec fn stream_nibble(input: Seq<u8>, t: int) -> u8 {
    let z = shake256_byte(input, t / 2);
    if t % 2 == 0 {
        z % 16
    } else {
        z / 16
    }
}

/// How many of the stream nibbles `0..t` CoeffFromHalfByte accepts.
pub open spec fn nibbles_accepted<P: ParameterSet>(input: Seq<u8>, t: nat) -> nat
    decreases t,
{
    if t == 0 {
        0
    } else {
        nibbles_accepted::<P>(input, (t - 1) as nat) + if half_byte_coeff::<P>(
            stream_nibble(input, t - 1),
        ) is Some {
            1nat
        } else {
            0nat
        }
    }
}

/// After `t` stream bytes, RejBoundedPoly has kept the first accepted nibbles, in stream
/// order, up to 256 of them.
proof fn lemma_rej_bounded_scan_nibbles<P: ParameterSet>(input: Seq<u8>, t: nat)
    ensures
        rej_bounded_scan::<P>(input, t).len() == if nibbles_accepted::<P>(input, 2 * t) < N {
            nibbles_accepted::<P>(input, 2 * t)
        } else {
            N as nat
        },
        forall|u: nat|
            u < 2 * t && half_byte_coeff::<P>(stream_nibble(input, u as int)) is Some
                && nibbles_accepted::<P>(input, u) < N ==> rej_bounded_scan::<P>(input, t)[
                #[trigger] nibbles_accepted::<P>(input, u) as int] == half_byte_coeff::<P>(
                stream_nibble(input, u as int),
            )->0 as int,
    decreases t,
{
    if t > 0 {
        lemma_rej_bounded_scan_nibbles::<P>(input, (t - 1) as nat);
        let prev = rej_bounded_scan::<P>(input, (t - 1) as nat);
        let z = shake256_byte(input, t - 1);
        let lo = (2 * t - 2) as nat;
        let hi = (2 * t - 1) as nat;
        assert(lo / 2 == t - 1 && lo % 2 == 0);
        assert(hi / 2 == t - 1 && hi % 2 == 1);
        assert(stream_nibble(input, lo as int) == z % 16);
        assert(stream_nibble(input, hi as int) == z / 16);
        let a0 = nibbles_accepted::<P>(input, lo);
        let a1 = nibbles_accepted::<P>(input, hi);
        let a2 = nibbles_accepted::<P>(input, 2 * t);
        assert(a1 == nibbles_accepted::<P>(input, (hi - 1) as nat) + if half_byte_coeff::<P>(
            stream_nibble(input, hi - 1),
        ) is Some {
            1nat
        } else {
            0nat
        });
        assert(a2 == nibbles_accepted::<P>(input, (2 * t - 1) as nat) + if half_byte_coeff::<P>(
            stream_nibble(input, 2 * t - 1),
        ) is Some {
            1nat
        } else {
            0nat
        });
        let s0 = match half_byte_coeff::<P>(z % 16) {
            Some(v) => if prev.len() < N {
                prev.push(v as int)
            } else {
                prev
            },
            None => prev,
        };
        let s1 = rej_bounded_scan::<P>(input, t);
        assert forall|u: nat|
            u < 2 * t && half_byte_coeff::<P>(stream_nibble(input, u as int)) is Some
                && nibbles_accepted::<P>(input, u) < N implies s1[
                #[trigger] nibbles_accepted::<P>(input, u) as int] == half_byte_coeff::<P>(
                stream_nibble(input, u as int),
            )->0 as int by {
            lemma_nibbles_accepted_mono::<P>(input, u, lo);
            if u < lo {
                assert(prev[nibbles_accepted::<P>(input, u) as int] == half_byte_coeff::<P>(
                    stream_nibble(input, u as int),
                )->0 as int);
                assert(nibbles_accepted::<P>(input, u) < prev.len()) by {
                    lemma_nibbles_accepted_step::<P>(input, u, lo);
                }
            }
        }
    }
}

/// The accepted count never decreases.
proof fn lemma_nibbles_accepted_mono<P: ParameterSet>(input: Seq<u8>, u: nat, v: nat)
    ensures
        u <= v ==> nibbles_accepted::<P>(input, u) <= nibbles_accepted::<P>(input, v),
    decreases v,
{
    if u < v {
        lemma_nibbles_accepted_mono::<P>(input, u, (v - 1) as nat);
    }
}

/// An accepted nibble before `v` is counted strictly before `v`'s count.
proof fn lemma_nibbles_accepted_step<P: ParameterSet>(input: Seq<u8>, u: nat, v: nat)
    requires
        u < v,
        half_byte_coeff::<P>(stream_nibble(input, u as int)) is Some,
    ensures
        nibbles_accepted::<P>(input, u) < nibbles_accepted::<P>(input, v),
    decreases v,
{
    lemma_nibbles_accepted_mono::<P>(input, (u + 1) as nat, v);
}

/// RejBoundedPoly reads each SHAKE256 byte `z` as two candidates, `z mod 16` first and
/// then `z div 16` (FIPS 204 Algorithm 31, lines 5–11): the coefficient at position
/// `k` is CoeffFromHalfByte of the `k`-th accepted nibble of that stream.
pub proof fn lemma_rej_bounded_low_nibble_first<P: ParameterSet>(input: Seq<u8>, t: nat)
    requires
        t < 2 * STREAM_BUDGET,
        half_byte_coeff::<P>(stream_nibble(input, t as int)) is Some,
        nibbles_accepted::<P>(input, t) < N,
    ensures
        rej_bounded_coeffs::<P>(input)[nibbles_accepted::<P>(input, t) as int]
            == half_byte_coeff::<P>(stream_nibble(input, t as int))->0 as int,
{
    lemma_rej_bounded_scan_nibbles::<P>(input, STREAM_BUDGET as nat);
    lemma_nibbles_accepted_step::<P>(input, t, 2 * (STREAM_BUDGET as nat));
}

/// SampleInBall's last step puts the last sign at the position named by the next stream
/// byte: with `p` the stream position after the first `τ − 1` steps, the coefficient at
/// position `SHAKE256(ρ)[p]` is `−1` if sign bit `τ − 1` is set and `+1` if it is clear.
pub proof fn lemma_sample_in_ball_last_sign<P: ParameterSet>(input: Seq<u8>)
    requires
        ball_state::<P>(input, (P::TAU - 1) as nat).1 < STREAM_BUDGET,
    ensures
        ball_coeffs::<P>(input)[shake256_byte(input, ball_state::<P>(input, (P::TAU - 1) as nat).1 as int) as int]
            == if stream_bit(input, P::TAU - 1) == 1 {
            -1int
        } else {
            1int
        },
{
    lemma_valid::<P>();
    let k = P::TAU as nat;
    let (c, p) = ball_state::<P>(input, (k - 1) as nat);
    let i = N - P::TAU + k - 1;
    assert(i == 255);
    lemma_ball_state::<P>(input, (k - 1) as nat);
    let b = shake256_byte(input, p as int) as int;
    assert(ball_draw(input, p, i).0 == b);
    assert(stream_bit(input, P::TAU - 1) == 0 || stream_bit(input, P::TAU - 1) == 1);
}

} // verus!
