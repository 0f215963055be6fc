//! Constant-time helpers: branchless on i32, where `a >> 31` is all-ones iff `a`
//! is negative.
use crate::params::Q;
use vstd::prelude::*;

verus! {

/// Conditional add of `q`: normalizes `(-q, q)` towards `[0, q)`.
pub fn caddq(a: i32) -> (r: i32)
    ensures
        r == if a < 0 { a + Q } else { a as int },
{
    let m = (a >> 31) & Q;
    assert(m == if a < 0 { 8380417i32 } else { 0i32 }) by (bit_vector)
        requires
            m == (a >> 31) & 8380417i32,
    ;
    a + m
}

/// Conditional subtract of `q`.
pub fn csubq(a: i32) -> (r: i32)
    requires
        a >= i32::MIN + Q,
    ensures
        r == if a >= Q { a - Q } else { a as int },
{
    let b = a - Q;
    let m = (b >> 31) & Q;
    assert(m == if b < 0 { 8380417i32 } else { 0i32 }) by (bit_vector)
        requires
            m == (b >> 31) & 8380417i32,
    ;
    b + m
}

/// All-ones mask iff `a > b` (signed), else zero.
pub fn gt_mask(a: i32, b: i32) -> (r: i32)
    requires
        i32::MIN <= b - a <= i32::MAX,
    ensures
        r == if a > b { -1i32 } else { 0i32 },
{
    let d = b - a;
    let r = d >> 31;
    assert(r == if d < 0 { -1i32 } else { 0i32 }) by (bit_vector)
        requires
            r == d >> 31,
    ;
    r
}

/// `1` iff `a != b`, else `0`.
pub fn ne_bit(a: i32, b: i32) -> (r: i32)
    ensures
        r == if a != b { 1i32 } else { 0i32 },
{
    let x = a ^ b;
    let nx = 0i32.wrapping_sub(x);
    let r = ((x | nx) >> 31) & 1;
    assert(x == i32::MIN ==> nx == x);
    assert(x != i32::MIN ==> nx == -x);
    assert(r == if x != 0 { 1i32 } else { 0i32 }) by (bit_vector)
        requires
            x == -2147483648i32 ==> nx == x,
            x != -2147483648i32 ==> nx == -x,
            r == ((x | nx) >> 31) & 1,
    ;
    assert(x == 0 <==> a == b) by (bit_vector)
        requires
            x == a ^ b,
    ;
    r
}

} // verus!
