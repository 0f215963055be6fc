//! FIPS 204 §7.2 — hint encoding (Algorithms 20–21).
use crate::params::{lemma_valid, ParameterSet, N};
use crate::poly::PolyVec;
use crate::model::pv;
use crate::vecops::{count_nonzero, lemma_flat_index, vc};
use vstd::prelude::*;

verus! {

/// The columns `j < upto` of row `i` of `h` that hold a nonzero coefficient, ascending.
pub open spec fn row_positions(h: Seq<Seq<int>>, i: int, upto: nat) -> Seq<u8>
    decreases upto,
{
    if upto == 0 {
        Seq::empty()
    } else {
        let prev = row_positions(h, i, (upto - 1) as nat);
        if h[i][upto - 1] != 0 {
            prev.push((upto - 1) as u8)
        } else {
            prev
        }
    }
}

/// The nonzero positions of rows `0..rows` of `h`, row after row.
pub open spec fn hint_positions(h: Seq<Seq<int>>, rows: nat) -> Seq<u8>
    decreases rows,
{
    if rows == 0 {
        Seq::empty()
    } else {
        hint_positions(h, (rows - 1) as nat) + row_positions(h, rows - 1, N as nat)
    }
}

/// HintBitPack's output: the positions, zeros up to byte `omega`, then the running count of
/// positions after each row.
pub open spec fn hint_encoding(h: Seq<Seq<int>>, omega: nat) -> Seq<u8> {
    let p = hint_positions(h, h.len());
    p + Seq::new((omega - p.len()) as nat, |a: int| 0u8) + Seq::new(
        h.len(),
        |i: int| hint_positions(h, (i + 1) as nat).len() as u8,
    )
}

/// Where row `i`'s positions begin in an encoded hint: the count stored for the row before.
pub open spec fn hint_start(y: Seq<u8>, omega: nat, i: int) -> int {
    if i == 0 {
        0
    } else {
        y[omega + i - 1] as int
    }
}

/// Where row `i`'s positions end in an encoded hint: the count stored for the row.
pub open spec fn hint_end(y: Seq<u8>, omega: nat, i: int) -> int {
    y[omega + i] as int
}

/// Entries `lo .. hi` of `y` strictly increase.
pub open spec fn ascending(y: Seq<u8>, lo: int, hi: int) -> bool {
    forall|a: int, b: int| lo <= a < b < hi ==> #[trigger] y[a] < #[trigger] y[b]
}

/// What HintBitUnpack accepts: `omega + k` bytes whose counts never decrease nor pass
/// `omega`, whose positions strictly increase within each row, and whose unused position
/// bytes are zero.
pub open spec fn hint_well_formed(y: Seq<u8>, omega: nat, k: nat) -> bool {
    &&& y.len() == omega + k
    &&& forall|i: int|
        0 <= i < k ==> hint_start(y, omega, i) <= #[trigger] hint_end(y, omega, i) <= omega
    &&& forall|i: int|
        0 <= i < k ==> ascending(y, hint_start(y, omega, i), #[trigger] hint_end(y, omega, i))
    &&& forall|a: int|
        (if k == 0 {
            0
        } else {
            hint_end(y, omega, k - 1)
        }) <= a < omega ==> #[trigger] y[a] == 0
}

/// Coefficient `j` of row `i` decoded from `y`: `1` exactly when `j` is one of row `i`'s
/// positions.
pub open spec fn hint_coeff(y: Seq<u8>, omega: nat, i: int, j: int) -> i32 {
    if y.subrange(hint_start(y, omega, i), hint_end(y, omega, i)).contains(j as u8) {
        1
    } else {
        0
    }
}

/// Row positions are ascending, below `upto`, and name exactly the nonzero columns.
proof fn lemma_row_positions(h: Seq<Seq<int>>, i: int, upto: nat)
    requires
        upto <= N,
    ensures
        ascending(row_positions(h, i, upto), 0, row_positions(h, i, upto).len() as int),
        row_positions(h, i, upto).len() <= upto,
        forall|a: int|
            0 <= a < row_positions(h, i, upto).len() ==> (#[trigger] row_positions(h, i, upto)[a])
                < upto,
        forall|j: int|
            0 <= j < upto ==> (row_positions(h, i, upto).contains(j as u8) <==> h[i][j] != 0),
    decreases upto,
{
    if upto > 0 {
        let u = (upto - 1) as nat;
        lemma_row_positions(h, i, u);
        let prev = row_positions(h, i, u);
        let cur = row_positions(h, i, upto);
        if h[i][u as int] != 0 {
            assert(cur == prev.push(u as u8));
            assert forall|j: int| 0 <= j < upto implies (cur.contains(j as u8) <==> h[i][j]
                != 0) by {
                if j < u {
                    if cur.contains(j as u8) {
                        let a = choose|a: int| 0 <= a < cur.len() && cur[a] == j as u8;
                        if a < prev.len() {
                            assert(prev[a] == j as u8);
                        }
                    }
                    if prev.contains(j as u8) {
                        let a = choose|a: int| 0 <= a < prev.len() && prev[a] == j as u8;
                        assert(cur[a] == j as u8);
                    }
                } else {
                    assert(cur[prev.len() as int] == j as u8);
                }
            }
        } else {
            assert forall|j: int| 0 <= j < upto implies (cur.contains(j as u8) <==> h[i][j]
                != 0) by {
                if j == u {
                    if cur.contains(j as u8) {
                        let a = choose|a: int| 0 <= a < cur.len() && cur[a] == j as u8;
                        assert(prev[a] < u);
                    }
                }
            }
        }
    }
}

/// The positions of all rows, counted, are the nonzero coefficients counted.
proof fn lemma_positions_count<const K: usize>(h: PolyVec<K>, i: nat, j: nat)
    requires
        j <= N,
        i <= K,
        i == K ==> j == 0,
    ensures
        hint_positions(pv(h), i).len() + row_positions(pv(h), i as int, j).len() == count_nonzero(
            h,
            i * N + j,
        ),
    decreases i, j,
{
    if j > 0 {
        lemma_positions_count(h, i, (j - 1) as nat);
        lemma_flat_index(i as int, j - 1);
        assert(pv(h)[i as int][j - 1] == vc(h, i as int, j - 1));
        assert(i * N + j - 1 == i * N + (j - 1));
    } else if i > 0 {
        lemma_positions_count(h, (i - 1) as nat, N as nat);
        assert((i - 1) * N + N == i * N) by (nonlinear_arith)
            requires
                i > 0,
        ;
        assert(row_positions(pv(h), i as int, 0) =~= Seq::<u8>::empty());
    } else {
        assert(row_positions(pv(h), 0, 0) =~= Seq::<u8>::empty());
    }
}

/// The positions of the first rows are a prefix of the positions of all rows.
proof fn lemma_positions_prefix(h: Seq<Seq<int>>, i: nat, m: nat)
    requires
        i <= m,
    ensures
        hint_positions(h, i).len() <= hint_positions(h, m).len(),
        hint_positions(h, m).subrange(0, hint_positions(h, i).len() as int) == hint_positions(h, i),
    decreases m - i,
{
    if i < m {
        lemma_positions_prefix(h, i, (m - 1) as nat);
        let p = hint_positions(h, (m - 1) as nat);
        assert(hint_positions(h, m).subrange(0, hint_positions(h, i).len() as int) =~= p.subrange(
            0,
            hint_positions(h, i).len() as int,
        ));
    } else {
        assert(hint_positions(h, m).subrange(0, hint_positions(h, m).len() as int) =~= hint_positions(
            h,
            m,
        ));
    }
}

/// Row positions only grow as more columns are scanned.
proof fn lemma_row_positions_prefix(h: Seq<Seq<int>>, i: int, j: nat, u: nat)
    requires
        j <= u,
    ensures
        row_positions(h, i, j).len() <= row_positions(h, i, u).len(),
        row_positions(h, i, u).subrange(0, row_positions(h, i, j).len() as int) == row_positions(
            h,
            i,
            j,
        ),
    decreases u - j,
{
    if j < u {
        lemma_row_positions_prefix(h, i, j, (u - 1) as nat);
        let p = row_positions(h, i, (u - 1) as nat);
        assert(row_positions(h, i, u).subrange(0, row_positions(h, i, j).len() as int)
            =~= p.subrange(0, row_positions(h, i, j).len() as int));
    } else {
        assert(row_positions(h, i, u).subrange(0, row_positions(h, i, u).len() as int)
            =~= row_positions(h, i, u));
    }
}

/// FIPS 204, Algorithm 20 — HintBitPack: encode the binary hint `h` into `ω + K` bytes.
pub fn hint_bit_pack<P: ParameterSet, const K: usize>(h: &PolyVec<K>) -> (y: Vec<u8>)
    requires
        K == P::K,
        hint_positions(pv(*h), K as nat).len() <= P::OMEGA,
    ensures
        y@ == hint_encoding(pv(*h), P::OMEGA as nat),
{
    proof {
        lemma_valid::<P>();
    }
    let omega = P::OMEGA;
    let ghost total = hint_positions(pv(*h), K as nat);
    let mut y: Vec<u8> = vec![0u8; omega + K];
    let mut index: usize = 0;
    for i in 0..K
        invariant
            K == P::K,
            omega == P::OMEGA,
            omega <= 80,
            K <= 8,
            total == hint_positions(pv(*h), K as nat),
            total.len() <= omega,
            y@.len() == omega + K,
            index == hint_positions(pv(*h), i as nat).len(),
            forall|a: int| 0 <= a < index ==> #[trigger] y@[a] == total[a],
            forall|a: int| index <= a < omega ==> #[trigger] y@[a] == 0,
            forall|t: int|
                0 <= t < i ==> #[trigger] y@[omega + t] == hint_positions(pv(*h), (t + 1) as nat).len(),
            forall|t: int| i <= t < K ==> #[trigger] y@[omega + t] == 0,
    {
        proof {
            lemma_positions_prefix(pv(*h), (i + 1) as nat, K as nat);
            lemma_positions_prefix(pv(*h), i as nat, (i + 1) as nat);
            lemma_positions_prefix(pv(*h), i as nat, K as nat);
            assert(row_positions(pv(*h), i as int, 0) =~= Seq::<u8>::empty());
        }
        for j in 0..N
            invariant
                K == P::K,
                omega == P::OMEGA,
                omega <= 80,
                i < K,
                total == hint_positions(pv(*h), K as nat),
                total.len() <= omega,
                hint_positions(pv(*h), (i + 1) as nat).len() <= total.len(),
                total.subrange(0, hint_positions(pv(*h), (i + 1) as nat).len() as int)
                    == hint_positions(pv(*h), (i + 1) as nat),
                y@.len() == omega + K,
                index == hint_positions(pv(*h), i as nat).len() + row_positions(
                    pv(*h),
                    i as int,
                    j as nat,
                ).len(),
                forall|a: int| 0 <= a < index ==> #[trigger] y@[a] == total[a],
                forall|a: int| index <= a < omega ==> #[trigger] y@[a] == 0,
                forall|t: int|
                    0 <= t < i ==> #[trigger] y@[omega + t] == hint_positions(
                        pv(*h),
                        (t + 1) as nat,
                    ).len(),
                forall|t: int| i <= t < K ==> #[trigger] y@[omega + t] == 0,
        {
            proof {
                lemma_row_positions_prefix(pv(*h), i as int, (j + 1) as nat, N as nat);
            }
            if h.v[i].coeffs[j] != 0 {
                proof {
                    let hp = hint_positions(pv(*h), i as nat);
                    let rp = row_positions(pv(*h), i as int, (j + 1) as nat);
                    assert(pv(*h)[i as int][j as int] == h.v[i as int].coeffs[j as int]);
                    assert(hint_positions(pv(*h), (i + 1) as nat) == hp + row_positions(
                        pv(*h),
                        i as int,
                        N as nat,
                    ));
                    assert(rp[rp.len() - 1] == j as u8);
                    assert(total[index as int] == hint_positions(pv(*h), (i + 1) as nat)[index as int]);
                    assert(row_positions(pv(*h), i as int, N as nat)[rp.len() - 1] == rp[rp.len() - 1]);
                }
                y.set(index, j as u8);
                index += 1;
            }
        }
        proof {
            assert(hint_positions(pv(*h), (i + 1) as nat).len() == index);
        }
        y.set(omega + i, index as u8);
    }
    proof {
        let e = hint_encoding(pv(*h), P::OMEGA as nat);
        assert(index == total.len());
        assert forall|a: int| 0 <= a < y@.len() implies y@[a] == e[a] by {
            if a >= omega {
                assert(y@[omega + (a - omega)] == hint_positions(pv(*h), (a - omega + 1) as nat).len());
            }
        }
        assert(y@ =~= e);
    }
    y
}

/// FIPS 204, Algorithm 21 — HintBitUnpack: reverse HintBitPack, or ⊥ (`None`) if malformed.
pub fn hint_bit_unpack<P: ParameterSet, const K: usize>(y: &[u8]) -> (r: Option<PolyVec<K>>)
    requires
        K == P::K,
    ensures
        r is Some <==> hint_well_formed(y@, P::OMEGA as nat, K as nat),
        r matches Some(h) ==> forall|i: int, j: int|
            0 <= i < K && 0 <= j < N ==> #[trigger] h.v[i].coeffs@[j] == hint_coeff(
                y@,
                P::OMEGA as nat,
                i,
                j,
            ),
{
    proof {
        lemma_valid::<P>();
    }
    let omega = P::OMEGA;
    if y.len() != omega + K {
        return None;
    }
    let ghost om = omega as nat;
    let mut h = PolyVec::<K>::zero();
    let mut index: usize = 0;
    for i in 0..K
        invariant
            K == P::K,
            omega == P::OMEGA,
            om == omega,
            omega <= 80,
            K <= 8,
            y@.len() == omega + K,
            index == hint_start(y@, om, i as int),
            index <= omega,
            forall|t: int|
                0 <= t < i ==> hint_start(y@, om, t) <= #[trigger] hint_end(y@, om, t) <= omega,
            forall|t: int|
                0 <= t < i ==> ascending(y@, hint_start(y@, om, t), #[trigger] hint_end(y@, om, t)),
            forall|t: int, j: int|
                0 <= t < i && 0 <= j < N ==> #[trigger] h.v[t].coeffs@[j] == hint_coeff(
                    y@,
                    om,
                    t,
                    j,
                ),
            forall|t: int, j: int| i <= t < K && 0 <= j < N ==> #[trigger] h.v[t].coeffs@[j] == 0,
    {
        let end = y[omega + i] as usize;
        if end < index || end > omega {
            assert(!(hint_start(y@, om, i as int) <= hint_end(y@, om, i as int) <= omega));
            return None;
        }
        let first = index;
        while index < end
            invariant
                K == P::K,
                omega == P::OMEGA,
                om == omega,
                i < K,
                y@.len() == omega + K,
                first == hint_start(y@, om, i as int),
                end == hint_end(y@, om, i as int),
                first <= index <= end <= omega,
                ascending(y@, first as int, index as int),
                forall|j: int|
                    0 <= j < N ==> #[trigger] h.v[i as int].coeffs@[j] == if y@.subrange(
                        first as int,
                        index as int,
                    ).contains(j as u8) {
                        1i32
                    } else {
                        0i32
                    },
                forall|t: int, j: int|
                    0 <= t < i && 0 <= j < N ==> #[trigger] h.v[t].coeffs@[j] == hint_coeff(
                        y@,
                        om,
                        t,
                        j,
                    ),
                forall|t: int, j: int|
                    i < t < K && 0 <= j < N ==> #[trigger] h.v[t].coeffs@[j] == 0,
            decreases end - index,
        {
            if index > first && y[index - 1] >= y[index] {
                assert(!ascending(y@, hint_start(y@, om, i as int), hint_end(y@, om, i as int)));
                return None;
            }
            let pos = y[index] as usize;
            let ghost old_h = h;
            h.v[i].coeffs[pos] = 1;
            proof {
                let old_s = y@.subrange(first as int, index as int);
                let new_s = y@.subrange(first as int, index + 1);
                assert(new_s =~= old_s.push(y@[index as int]));
                assert forall|j: int| 0 <= j < N implies #[trigger] h.v[i as int].coeffs@[j]
                    == if new_s.contains(j as u8) {
                    1i32
                } else {
                    0i32
                } by {
                    if j != pos {
                        assert(h.v[i as int].coeffs@[j] == old_h.v[i as int].coeffs@[j]);
                        if new_s.contains(j as u8) {
                            let a = choose|a: int| 0 <= a < new_s.len() && new_s[a] == j as u8;
                            assert(a < old_s.len());
                            assert(old_s[a] == j as u8);
                        }
                        if old_s.contains(j as u8) {
                            let a = choose|a: int| 0 <= a < old_s.len() && old_s[a] == j as u8;
                            assert(new_s[a] == j as u8);
                        }
                    } else {
                        assert(new_s[old_s.len() as int] == j as u8);
                    }
                }
                assert forall|a: int, b: int| first <= a < b < index + 1 implies #[trigger] y@[a]
                    < #[trigger] y@[b] by {
                    if b == index && a < index - 1 {
                        assert(y@[a] < y@[index - 1]);
                    }
                }
            }
            index += 1;
        }
        proof {
            assert(hint_end(y@, om, i as int) == index);
            assert(hint_start(y@, om, i + 1) == index);
        }
    }
    let mut a: usize = index;
    while a < omega
        invariant
            omega == P::OMEGA,
            om == omega,
            y@.len() == omega + K,
            K == P::K,
            index == hint_start(y@, om, K as int),
            index <= a <= omega,
            forall|b: int| index <= b < a ==> #[trigger] y@[b] == 0,
        decreases omega - a,
    {
        if y[a] != 0 {
            return None;
        }
        a += 1;
    }
    Some(h)
}

/// Row positions that strictly ascend, stay below `upto`, and name exactly the nonzero
/// columns are the row positions.
proof fn lemma_row_positions_unique(h: Seq<Seq<int>>, i: int, upto: nat, s: Seq<u8>)
    requires
        upto <= N,
        ascending(s, 0, s.len() as int),
        forall|a: int| 0 <= a < s.len() ==> (#[trigger] s[a]) < upto,
        forall|j: int| 0 <= j < upto ==> (s.contains(j as u8) <==> h[i][j] != 0),
    ensures
        row_positions(h, i, upto) == s,
    decreases upto,
{
    if upto == 0 {
        if s.len() > 0 {
            assert(s[0] < 0);
        }
        assert(s =~= Seq::<u8>::empty());
    } else {
        let u = (upto - 1) as nat;
        if h[i][u as int] != 0 {
            assert(s.contains(u as u8));
            let a = choose|a: int| 0 <= a < s.len() && s[a] == u as u8;
            let last = s.len() - 1;
            if a < last {
                assert(s[a] < s[last]);
            }
            assert(s[last] == u as u8);
            let t = s.drop_last();
            assert forall|b: int| 0 <= b < t.len() implies (#[trigger] t[b]) < u by {
                assert(s[b] < s[last]);
            }
            assert forall|j: int| 0 <= j < u implies (t.contains(j as u8) <==> h[i][j] != 0) by {
                if s.contains(j as u8) {
                    let b = choose|b: int| 0 <= b < s.len() && s[b] == j as u8;
                    assert(b != last);
                    assert(t[b] == j as u8);
                }
                if t.contains(j as u8) {
                    let b = choose|b: int| 0 <= b < t.len() && t[b] == j as u8;
                    assert(s[b] == j as u8);
                }
            }
            lemma_row_positions_unique(h, i, u, t);
            assert(s =~= t.push(u as u8));
        } else {
            assert forall|b: int| 0 <= b < s.len() implies (#[trigger] s[b]) < u by {
                if s[b] == u {
                    assert(s.contains(u as u8));
                }
            }
            lemma_row_positions_unique(h, i, u, s);
        }
    }
}

/// HintBitUnpack inverts HintBitPack on a binary hint with at most `omega` ones.
pub proof fn lemma_hint_unpack_of_pack(h: Seq<Seq<int>>, omega: nat)
    requires
        omega < 256,
        hint_positions(h, h.len()).len() <= omega,
        forall|i: int, j: int|
            0 <= i < h.len() && 0 <= j < N ==> #[trigger] h[i][j] == 0 || h[i][j] == 1,
    ensures
        hint_well_formed(hint_encoding(h, omega), omega, h.len()),
        forall|i: int, j: int|
            0 <= i < h.len() && 0 <= j < N ==> #[trigger] hint_coeff(hint_encoding(h, omega), omega, i, j)
                == h[i][j],
{
    let e = hint_encoding(h, omega);
    let total = hint_positions(h, h.len());
    assert forall|i: int| 0 <= i < h.len() implies #[trigger] hint_end(e, omega, i)
        == hint_positions(h, (i + 1) as nat).len() && hint_start(e, omega, i) == hint_positions(
        h,
        i as nat,
    ).len() && e.subrange(hint_start(e, omega, i), hint_end(e, omega, i)) == row_positions(
        h,
        i,
        N as nat,
    ) && hint_end(e, omega, i) <= omega by {
        lemma_positions_prefix(h, (i + 1) as nat, h.len());
        lemma_positions_prefix(h, i as nat, (i + 1) as nat);
        assert(e[omega + i] == hint_positions(h, (i + 1) as nat).len() as u8);
        if i > 0 {
            lemma_positions_prefix(h, i as nat, h.len());
            assert(e[omega + (i - 1)] == hint_positions(h, i as nat).len() as u8);
        } else {
            assert(hint_positions(h, 0) =~= Seq::<u8>::empty());
        }
        let lo = hint_positions(h, i as nat).len() as int;
        let hi = hint_positions(h, (i + 1) as nat).len() as int;
        assert(e.subrange(lo, hi) =~= hint_positions(h, (i + 1) as nat).subrange(lo, hi));
        assert(hint_positions(h, (i + 1) as nat).subrange(lo, hi) =~= row_positions(
            h,
            i,
            N as nat,
        ));
    }
    assert forall|i: int| 0 <= i < h.len() implies ascending(
        e,
        hint_start(e, omega, i),
        #[trigger] hint_end(e, omega, i),
    ) by {
        lemma_row_positions(h, i, N as nat);
        let lo = hint_start(e, omega, i);
        let hi = hint_end(e, omega, i);
        assert forall|a: int, b: int| lo <= a < b < hi implies #[trigger] e[a] < #[trigger] e[b] by {
            let rp = row_positions(h, i, N as nat);
            assert(e.subrange(lo, hi)[a - lo] == e[a]);
            assert(e.subrange(lo, hi)[b - lo] == e[b]);
            assert(rp[a - lo] < rp[b - lo]);
        }
    }
    if h.len() > 0 {
        assert(hint_end(e, omega, h.len() - 1) == total.len());
    }
    assert forall|i: int, j: int| 0 <= i < h.len() && 0 <= j < N implies #[trigger] hint_coeff(
        e,
        omega,
        i,
        j,
    ) == h[i][j] by {
        lemma_row_positions(h, i, N as nat);
        assert(hint_end(e, omega, i) == hint_positions(h, (i + 1) as nat).len());
    }
}

/// An accepted hint encoding is the HintBitPack encoding of the hint it decodes to: every
/// byte string that HintBitUnpack accepts is canonical.
pub proof fn lemma_hint_pack_of_unpack(y: Seq<u8>, omega: nat, h: Seq<Seq<int>>)
    requires
        hint_well_formed(y, omega, h.len()),
        forall|i: int, j: int|
            0 <= i < h.len() && 0 <= j < N ==> #[trigger] h[i][j] == hint_coeff(y, omega, i, j),
    ensures
        hint_encoding(h, omega) == y,
{
    assert forall|i: int| 0 <= i < h.len() implies #[trigger] row_positions(h, i, N as nat) == y.subrange(
        hint_start(y, omega, i),
        hint_end(y, omega, i),
    ) by {
        let lo = hint_start(y, omega, i);
        let hi = hint_end(y, omega, i);
        let s = y.subrange(lo, hi);
        assert(hint_end(y, omega, i) <= omega);
        assert(ascending(y, lo, hi));
        assert forall|a: int, b: int| 0 <= a < b < s.len() implies #[trigger] s[a] < #[trigger] s[b] by {
            assert(y[lo + a] < y[lo + b]);
        }
        assert forall|j: int| 0 <= j < N implies (s.contains(j as u8) <==> h[i][j] != 0) by {
            assert(h[i][j] == hint_coeff(y, omega, i, j));
        }
        lemma_row_positions_unique(h, i, N as nat, s);
    }
    assert forall|i: nat| i <= h.len() implies #[trigger] hint_positions(h, i) == y.subrange(
        0,
        hint_start(y, omega, i as int),
    ) by {
        lemma_positions_as_prefix(y, omega, h, i);
    }
    let total = hint_positions(h, h.len());
    let e = hint_encoding(h, omega);
    assert(total == y.subrange(0, hint_start(y, omega, h.len() as int)));
    if h.len() > 0 {
        assert(hint_start(y, omega, h.len() as int) == hint_end(y, omega, h.len() - 1));
    }
    assert forall|a: int| 0 <= a < y.len() implies e[a] == y[a] by {
        if a >= omega {
            let i = a - omega;
            assert(hint_positions(h, (i + 1) as nat) == y.subrange(0, hint_start(y, omega, i + 1)));
            assert(hint_start(y, omega, i + 1) == y[omega + i]);
        }
    }
    assert(e =~= y);
}

/// In an accepted encoding, the positions of rows `0..i` are the bytes before row `i`'s.
proof fn lemma_positions_as_prefix(y: Seq<u8>, omega: nat, h: Seq<Seq<int>>, i: nat)
    requires
        hint_well_formed(y, omega, h.len()),
        i <= h.len(),
        forall|t: int|
            0 <= t < h.len() ==> #[trigger] row_positions(h, t, N as nat) == y.subrange(
                hint_start(y, omega, t),
                hint_end(y, omega, t),
            ),
    ensures
        hint_positions(h, i) == y.subrange(0, hint_start(y, omega, i as int)),
    decreases i,
{
    if i == 0 {
        assert(y.subrange(0, 0) =~= Seq::<u8>::empty());
    } else {
        let t = i - 1;
        lemma_positions_as_prefix(y, omega, h, t as nat);
        assert(hint_start(y, omega, i as int) == hint_end(y, omega, t));
        assert(hint_start(y, omega, t) <= hint_end(y, omega, t) <= omega);
        assert(row_positions(h, t, N as nat) == y.subrange(
            hint_start(y, omega, t),
            hint_end(y, omega, t),
        ));
        assert(y.subrange(0, hint_start(y, omega, t)) + y.subrange(
            hint_start(y, omega, t),
            hint_end(y, omega, t),
        ) =~= y.subrange(0, hint_end(y, omega, t)));
    }
}

/// The positions of a hint are as many as its nonzero coefficients.
pub proof fn lemma_hint_positions_len<const K: usize>(h: PolyVec<K>)
    ensures
        hint_positions(pv(h), K as nat).len() == count_nonzero(h, K * N),
{
    lemma_positions_count(h, K as nat, 0);
    assert(row_positions(pv(h), K as int, 0) =~= Seq::<u8>::empty());
}

} // verus!
