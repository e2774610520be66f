//! Laws of the mean.

use vstd::arithmetic::div_mod::lemma_fundamental_div_mod;
use vstd::prelude::*;

use crate::aggregate::{balance, gains, losses, max_scale, mean_of, raised, Fraction};
use crate::decimal::{pow10, Reading};

verus! {

/// The distance between two natural numbers.
pub open spec fn distance(a: nat, b: nat) -> nat {
    if a > b {
        (a - b) as nat
    } else {
        (b - a) as nat
    }
}

/// A rounded mean is the nearest number with its digits: the rounded mean times the count
/// misses the sum, written with the same digits, by no more than half the count.
pub proof fn law_rounded_mean_is_nearest(mean: Fraction, extra: nat)
    requires
        mean.count > 0,
    ensures
        2 * distance(mean.rounded(extra).magnitude * mean.count, mean.total * pow10(extra))
            <= mean.count,
        mean.rounded(extra).scale == mean.scale + extra,
{
    let t = (mean.total * pow10(extra)) as int;
    let c = mean.count as int;
    let x = 2 * t + c;
    let d = 2 * c;
    let m = x / d;
    let r = x % d;
    lemma_fundamental_div_mod(x, d);
    assert(m == mean.rounded(extra).magnitude);
    assert(2 * (m * c) - 2 * t == c - r) by (nonlinear_arith)
        requires
            x == d * m + r,
            x == 2 * t + c,
            d == 2 * c,
    ;
    assert(0 <= r < 2 * c);
}

/// A mean that is a number with the digits of its scale is rounded to itself: where the
/// count divides the sum, the rounded mean, without further digits, is the quotient.
pub proof fn law_whole_mean_is_kept(mean: Fraction, quotient: nat)
    requires
        mean.count > 0,
        mean.total == quotient * mean.count,
    ensures
        mean.rounded(0).magnitude == quotient,
        mean.rounded(0).scale == mean.scale,
{
    let c = mean.count as int;
    let t = mean.total as int;
    let q = quotient as int;
    assert(pow10(0) == 1);
    assert(mean.total * pow10(0) == mean.total) by (nonlinear_arith)
        requires
            pow10(0) == 1,
    ;
    assert(2 * t + c == (2 * c) * q + c) by (nonlinear_arith)
        requires
            t == q * c,
    ;
    vstd::arithmetic::div_mod::lemma_fundamental_div_mod_converse(2 * t + c, 2 * c, q, c);
}

/// The mean of a single reading is that reading: its digits over the count 1.
pub proof fn law_mean_of_one(r: Reading)
    ensures
        mean_of(seq![r]) == (Fraction {
            negative: r.negative && r.magnitude > 0,
            total: r.magnitude,
            count: 1,
            scale: r.scale,
        }),
{
    let rs = seq![r];
    assert(rs.drop_last() =~= Seq::<Reading>::empty());
    assert(rs.last() == r);
    assert(max_scale(rs.drop_last()) == 0);
    assert(max_scale(rs) == r.scale);
    assert(pow10(0) == 1);
    assert(raised(r, r.scale) == r.magnitude) by (nonlinear_arith)
        requires
            raised(r, r.scale) == r.magnitude * 1,
    ;
    assert(gains(rs.drop_last(), r.scale) == 0);
    assert(losses(rs.drop_last(), r.scale) == 0);
    assert(balance(rs) == r.magnitude);
}

} // verus!
