//! Ring elements and their vectors/matrices, in the normal and NTT domains.
use crate::params::N;
use vstd::prelude::*;

verus! {

/// A coefficient in Z_q (i32).
pub type Zq = i32;

/// An element of R_q: 256 coefficients in the normal domain.
#[derive(Clone, Copy, PartialEq, Eq, Debug)]
pub struct Poly {
    pub coeffs: [Zq; N],
}

/// An element of T_q: 256 coefficients in the NTT domain.
#[derive(Clone, Copy, PartialEq, Eq, Debug)]
pub struct PolyNTT {
    pub coeffs: [Zq; N],
}

/// The sequence of 256 zeros.
pub open spec fn zero_coeffs() -> Seq<i32> {
    Seq::new(N as nat, |i: int| 0i32)
}

impl Poly {
    /// The zero polynomial.
    pub fn zero() -> (r: Self)
        ensures
            r.coeffs@ == zero_coeffs(),
    {
        let r = Self { coeffs: [0; N] };
        assert(r.coeffs@ =~= zero_coeffs());
        r
    }
}

impl Default for Poly {
    fn default() -> (r: Self)
        ensures
            r.coeffs@ == zero_coeffs(),
    {
        Self::zero()
    }
}

impl PolyNTT {
    /// The zero polynomial (NTT domain).
    pub fn zero() -> (r: Self)
        ensures
            r.coeffs@ == zero_coeffs(),
    {
        let r = Self { coeffs: [0; N] };
        assert(r.coeffs@ =~= zero_coeffs());
        r
    }
}

impl Default for PolyNTT {
    fn default() -> (r: Self)
        ensures
            r.coeffs@ == zero_coeffs(),
    {
        Self::zero()
    }
}

/// A length-K vector of polynomials (normal domain).
#[derive(Clone, Copy, PartialEq, Eq, Debug)]
pub struct PolyVec<const K: usize> {
    pub v: [Poly; K],
}

impl<const K: usize> PolyVec<K> {
    /// The zero vector.
    pub fn zero() -> (r: Self)
        ensures
            forall|i: int| 0 <= i < K ==> (#[trigger] r.v[i]).coeffs@ == zero_coeffs(),
    {
        Self { v: [Poly::zero(); K] }
    }
}

impl<const K: usize> Default for PolyVec<K> {
    fn default() -> (r: Self)
        ensures
            forall|i: int| 0 <= i < K ==> (#[trigger] r.v[i]).coeffs@ == zero_coeffs(),
    {
        Self::zero()
    }
}

/// A length-K vector of polynomials (NTT domain).
#[derive(Clone, Copy, PartialEq, Eq, Debug)]
pub struct PolyVecNTT<const K: usize> {
    pub v: [PolyNTT; K],
}

impl<const K: usize> PolyVecNTT<K> {
    /// The zero vector (NTT domain).
    pub fn zero() -> (r: Self)
        ensures
            forall|i: int| 0 <= i < K ==> (#[trigger] r.v[i]).coeffs@ == zero_coeffs(),
    {
        Self { v: [PolyNTT::zero(); K] }
    }
}

impl<const K: usize> Default for PolyVecNTT<K> {
    fn default() -> (r: Self)
        ensures
            forall|i: int| 0 <= i < K ==> (#[trigger] r.v[i]).coeffs@ == zero_coeffs(),
    {
        Self::zero()
    }
}

/// A K x L matrix of polynomials in the NTT domain (the expanded A-hat).
#[derive(Clone, Copy, PartialEq, Eq, Debug)]
pub struct PolyMatNTT<const K: usize, const L: usize> {
    pub rows: [PolyVecNTT<L>; K],
}

impl<const K: usize, const L: usize> PolyMatNTT<K, L> {
    /// The zero matrix.
    pub fn zero() -> (r: Self)
        ensures
            forall|i: int, j: int|
                0 <= i < K && 0 <= j < L ==> (#[trigger] r.rows[i].v[j]).coeffs@ == zero_coeffs(),
    {
        Self { rows: [PolyVecNTT::<L>::zero(); K] }
    }
}

} // verus!
