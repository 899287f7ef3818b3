//! Scores compare as the numbers that their bit patterns stand for.
use vstd::arithmetic::power2::{lemma_pow2_pos, lemma_pow2_unfold, pow2};
use vstd::prelude::*;

use crate::rag::score::Score;

verus! {

/// The value of a pattern without its sign, in units of the smallest number above
/// zero: eight bits of exponent over twenty-three of fraction, by IEEE 754.
pub open spec fn units(m: int) -> int {
    let exponent = m / 0x80_0000;
    let fraction = m % 0x80_0000;
    if exponent == 0 {
        fraction
    } else {
        (0x80_0000 + fraction) * pow2((exponent - 1) as nat)
    }
}

/// The value of a score, in the same units.
pub open spec fn value(s: Score) -> int {
    if s.bits < 0x8000_0000 {
        units(s.bits as int)
    } else {
        -units(s.bits - 0x8000_0000)
    }
}

/// A score is no number if its exponent is full and its fraction is not zero.
pub open spec fn no_number(s: Score) -> bool {
    let m = s.bits as int % 0x8000_0000;
    m / 0x80_0000 == 255 && m % 0x80_0000 != 0
}

proof fn lemma_units_step(m: int)
    requires
        0 <= m,
    ensures
        units(m) < units(m + 1),
        units(m) >= 0,
{
    let e = m / 0x80_0000;
    let f = m % 0x80_0000;
    lemma_pow2_pos(0);
    if f + 1 < 0x80_0000 {
        assert((m + 1) / 0x80_0000 == e);
        assert((m + 1) % 0x80_0000 == f + 1);
        if e > 0 {
            let p = pow2((e - 1) as nat) as int;
            lemma_pow2_pos((e - 1) as nat);
            assert((0x80_0000 + f) * p < (0x80_0000 + (f + 1)) * p && (0x80_0000 + f) * p >= 0)
                by (nonlinear_arith)
                requires
                    p > 0,
                    f >= 0,
            ;
        }
    } else {
        assert((m + 1) / 0x80_0000 == e + 1);
        assert((m + 1) % 0x80_0000 == 0);
        let q = pow2(e as nat) as int;
        lemma_pow2_pos(e as nat);
        if e == 0 {
            assert(pow2(0) == 1) by {
                vstd::arithmetic::power2::lemma2_to64();
            }
        } else {
            let p = pow2((e - 1) as nat) as int;
            lemma_pow2_pos((e - 1) as nat);
            lemma_pow2_unfold(e as nat);
            assert(q == 2 * p);
            assert((0x80_0000 + f) * p < (0x80_0000 + 0) * q && (0x80_0000 + f) * p >= 0)
                by (nonlinear_arith)
                requires
                    p > 0,
                    q == 2 * p,
                    0 <= f < 0x80_0000,
            ;
        }
    }
}

proof fn lemma_units_grow(m: int, n: int)
    requires
        0 <= m < n,
    ensures
        units(m) < units(n),
    decreases n - m,
{
    lemma_units_step(m);
    if m + 1 < n {
        lemma_units_grow(m + 1, n);
    }
}

proof fn lemma_units(m: int, n: int)
    requires
        0 <= m,
        0 <= n,
    ensures
        units(m) < units(n) <==> m < n,
        units(m) == units(n) <==> m == n,
        units(m) >= 0,
        units(m) == 0 <==> m == 0,
{
    lemma_units_step(m);
    assert(units(0) == 0);
    if m < n {
        lemma_units_grow(m, n);
    }
    if n < m {
        lemma_units_grow(n, m);
    }
    if m > 0 {
        lemma_units_grow(0, m);
    }
}

/// Scores are ordered as their values are; one is above another, or at least as
/// high, if and only if its value is, where both are numbers; and no comparison
/// holds of what is no number.
pub proof fn scores_compare_as_numbers(a: Score, b: Score)
    ensures
        a.rank() < b.rank() <==> value(a) < value(b),
        a.rank() == b.rank() <==> value(a) == value(b),
        a.nan() <==> no_number(a),
        a.exceeds(b) <==> !no_number(a) && !no_number(b) && value(a) > value(b),
        a.reaches(b) <==> !no_number(a) && !no_number(b) && value(a) >= value(b),
        a.positive() <==> !no_number(a) && value(a) > 0,
{
    let m = a.magnitude();
    let n = b.magnitude();
    lemma_units(m, n);
    lemma_units(n, m);
    lemma_no_number(a);
    lemma_no_number(b);
}

proof fn lemma_no_number(s: Score)
    ensures
        s.nan() <==> no_number(s),
{
    let m = s.magnitude();
    assert(m == s.bits as int % 0x8000_0000);
    assert(0x7f80_0000 == 255 * 0x80_0000);
}

} // verus!
