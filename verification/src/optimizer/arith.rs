//! Two's-complement arithmetic on 64-bit cells, as the folding passes compute it.
use vstd::prelude::*;

verus! {

/// `x` reduced into the range of `i64` (two's-complement wrap-around).
pub open spec fn wrap64(x: int) -> i64 {
    vstd::wrapping::i64_specs::signed_crop(x)
}

/// Magnitude of a quotient truncated toward zero.
pub open spec fn trunc_div(a: int, b: int) -> int
    recommends
        b != 0,
{
    let q = (if a >= 0 { a } else { -a }) / (if b >= 0 { b } else { -b });
    if (a >= 0) == (b >= 0) { q } else { -q }
}

/// `i64::wrapping_div`: the quotient truncated toward zero, wrapped.
pub open spec fn spec_wrapping_div(a: i64, b: i64) -> i64
    recommends
        b != 0,
{
    wrap64(trunc_div(a as int, b as int))
}

/// `i64::wrapping_rem`: the remainder of the truncated division.
pub open spec fn spec_wrapping_rem(a: i64, b: i64) -> i64
    recommends
        b != 0,
{
    wrap64(a as int - (b as int) * trunc_div(a as int, b as int))
}

/// `i64::wrapping_neg`.
pub open spec fn spec_wrapping_neg(a: i64) -> i64 {
    wrap64(-(a as int))
}

/// The absolute value, wrapped (so that `i64::MIN` stays `i64::MIN`).
pub open spec fn spec_wrapping_abs(a: i64) -> i64 {
    wrap64(if a < 0 { -(a as int) } else { a as int })
}

proof fn lemma_wrap_in_range(x: int)
    requires
        i64::MIN <= x <= i64::MAX,
    ensures
        wrap64(x) == x,
{
}

proof fn lemma_wrap_min(x: int)
    requires
        x == 0x8000_0000_0000_0000int,
    ensures
        wrap64(x) == i64::MIN,
{
}

/// `i64::wrapping_div`.
pub fn wrapping_div(a: i64, b: i64) -> (r: i64)
    requires
        b != 0,
    ensures
        r == spec_wrapping_div(a, b),
{
    let ma: u64 = if a >= 0 { a as u64 } else { (0i128 - a as i128) as u64 };
    let mb: u64 = if b >= 0 { b as u64 } else { (0i128 - b as i128) as u64 };
    let q: u64 = ma / mb;
    assert(q <= ma) by (nonlinear_arith) requires mb >= 1, q == ma / mb;
    if (a >= 0) == (b >= 0) {
        if q == 0x8000_0000_0000_0000u64 {
            proof { lemma_wrap_min(q as int); }
            i64::MIN
        } else {
            proof {
                assert(q <= i64::MAX);
                lemma_wrap_in_range(q as int);
            }
            q as i64
        }
    } else {
        proof { lemma_wrap_in_range(-(q as int)); }
        (0i128 - q as i128) as i64
    }
}

/// `i64::wrapping_rem`.
pub fn wrapping_rem(a: i64, b: i64) -> (r: i64)
    requires
        b != 0,
    ensures
        r == spec_wrapping_rem(a, b),
{
    let ma: u64 = if a >= 0 { a as u64 } else { (0i128 - a as i128) as u64 };
    let mb: u64 = if b >= 0 { b as u64 } else { (0i128 - b as i128) as u64 };
    let q: u64 = ma / mb;
    let m: u64 = ma % mb;
    assert(ma == mb * q + m && m < mb) by (nonlinear_arith) requires mb >= 1, q == ma / mb, m == ma % mb;
    let tq: i128 = if (a >= 0) == (b >= 0) { q as i128 } else { 0i128 - q as i128 };
    assert(a as int - (b as int) * (tq as int) == (if a >= 0 { m as int } else { -(m as int) })) by (nonlinear_arith)
        requires
            ma == mb * q + m,
            ma == (if a >= 0 { a as int } else { -(a as int) }),
            mb == (if b >= 0 { b as int } else { -(b as int) }),
            tq == (if (a >= 0) == (b >= 0) { q as int } else { -(q as int) });
    proof { lemma_wrap_in_range(if a >= 0 { m as int } else { -(m as int) }); }
    if a >= 0 { m as i64 } else { (0i128 - m as i128) as i64 }
}

/// `i64::wrapping_neg`.
pub fn wrapping_neg(a: i64) -> (r: i64)
    ensures
        r == spec_wrapping_neg(a),
{
    if a == i64::MIN {
        proof { lemma_wrap_min(-(a as int)); }
        i64::MIN
    } else {
        proof { lemma_wrap_in_range(-(a as int)); }
        -a
    }
}

/// The absolute value, wrapped.
pub fn wrapping_abs(a: i64) -> (r: i64)
    ensures
        r == spec_wrapping_abs(a),
{
    if a == i64::MIN {
        proof { lemma_wrap_min(-(a as int)); }
        i64::MIN
    } else if a < 0 {
        proof { lemma_wrap_in_range(-(a as int)); }
        -a
    } else {
        proof { lemma_wrap_in_range(a as int); }
        a
    }
}

} // verus!
