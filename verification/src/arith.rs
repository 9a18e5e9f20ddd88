//! Integer helpers shared by the game rules: sums of sequences and rounding
//! of quotients the way `f64::round` rounds (half away from zero).

use vstd::prelude::*;
use vstd::arithmetic::div_mod::{lemma_fundamental_div_mod, lemma_mod_bound};

verus! {

/// Sum of a sequence of `i32`, as a mathematical integer.
pub open spec fn total(s: Seq<i32>) -> int
    decreases s.len(),
{
    if s.len() == 0 {
        0
    } else {
        total(s.drop_last()) + s.last()
    }
}

/// Appending a value adds it to the sum.
pub proof fn lemma_total_push(s: Seq<i32>, x: i32)
    ensures
        total(s.push(x)) == total(s) + x,
{
    assert(s.push(x).drop_last() =~= s);
}

/// Replacing one value changes the sum by the difference.
pub proof fn lemma_total_update(s: Seq<i32>, i: int, x: i32)
    requires
        0 <= i < s.len(),
    ensures
        total(s.update(i, x)) == total(s) - s[i] + x,
    decreases s.len(),
{
    if i == s.len() - 1 {
        assert(s.update(i, x).drop_last() =~= s.drop_last());
    } else {
        assert(s.update(i, x).drop_last() =~= s.drop_last().update(i, x));
        lemma_total_update(s.drop_last(), i, x);
    }
}

/// `n / d` rounded to the nearest integer, halves away from zero
/// (the rounding of `f64::round`), for a positive divisor `d`.
pub open spec fn round_div(n: int, d: int) -> int {
    if n >= 0 {
        (2 * n + d) / (2 * d)
    } else {
        -((-2 * n + d) / (2 * d))
    }
}

/// The rounded quotient is within half a unit of the exact one:
/// `|d * round_div(n, d) - n| <= d / 2`, and an exact half is rounded away
/// from zero.
pub proof fn lemma_round_div_close(n: int, d: int)
    requires
        d > 0,
    ensures
        -d <= 2 * (d * round_div(n, d) - n) <= d,
        n >= 0 ==> -d < 2 * (d * round_div(n, d) - n),
        n < 0 ==> 2 * (d * round_div(n, d) - n) < d,
{
    if n >= 0 {
        let x = 2 * n + d;
        let q = x / (2 * d);
        lemma_fundamental_div_mod(x, 2 * d);
        lemma_mod_bound(x, 2 * d);
        assert(-d < 2 * (d * q - n) <= d) by (nonlinear_arith)
            requires
                x == 2 * d * q + x % (2 * d),
                0 <= x % (2 * d) < 2 * d,
                x == 2 * n + d,
        ;
    } else {
        let x = -2 * n + d;
        let q = x / (2 * d);
        lemma_fundamental_div_mod(x, 2 * d);
        lemma_mod_bound(x, 2 * d);
        assert(-d <= 2 * (d * (-q) - n) < d) by (nonlinear_arith)
            requires
                x == 2 * d * q + x % (2 * d),
                0 <= x % (2 * d) < 2 * d,
                x == -2 * n + d,
        ;
    }
}

/// A quotient whose exact value lies in the range of `i32` rounds into it.
pub proof fn lemma_round_div_in_range(n: int, d: int)
    requires
        d > 0,
        d * (i32::MIN as int) <= n <= d * (i32::MAX as int),
    ensures
        i32::MIN <= round_div(n, d) <= i32::MAX,
{
    lemma_round_div_close(n, d);
    let r = round_div(n, d);
    assert(i32::MIN <= r <= i32::MAX) by (nonlinear_arith)
        requires
            d > 0,
            -d <= 2 * (d * r - n) <= d,
            d * (i32::MIN as int) <= n <= d * (i32::MAX as int),
    ;
}

/// Clamp into the range of `i32`, as a saturating float-to-`i32` cast does.
pub open spec fn saturate_i32(x: int) -> int {
    if x > i32::MAX {
        i32::MAX as int
    } else if x < i32::MIN {
        i32::MIN as int
    } else {
        x
    }
}

/// Rounds `n / d` half away from zero.
pub fn round_div_i128(n: i128, d: i128) -> (r: i128)
    requires
        0 < d <= 0x1_0000_0000,
        -0x1_0000_0000_0000_0000_0000_0000_0000 < n < 0x1_0000_0000_0000_0000_0000_0000_0000,
    ensures
        r == round_div(n as int, d as int),
{
    if n >= 0 {
        (2 * n + d) / (2 * d)
    } else {
        let m: i128 = -n;
        let q: i128 = (2 * m + d) / (2 * d);
        -q
    }
}

} // verus!
