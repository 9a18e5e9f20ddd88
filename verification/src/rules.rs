//! The integer rules of the attack model: number of targets, the share of
//! the attack that each flag takes away, and the bounds of the nightly
//! attack strength for a given day.

use vstd::prelude::*;
use crate::arith::{lemma_round_div_close, lemma_round_div_in_range, round_div, round_div_i128, saturate_i32};
use vstd::arithmetic::div_mod::lemma_div_is_ordered;

verus! {

/// Number of targets the attack is spread over on `day`:
/// ten, plus two for every two full days after the tenth.
pub open spec fn spec_target_count(day: int) -> int {
    10 + 2 * ((if day - 10 > 0 { day - 10 } else { 0 }) / 2)
}

/// Ten targets up to the eleventh day; from the tenth day on, two more
/// targets every two days, for ever; never fewer targets on a later day.
pub proof fn lemma_target_count_growth(day: int)
    ensures
        day <= 11 ==> spec_target_count(day) == 10,
        day >= 10 ==> spec_target_count(day + 2) == spec_target_count(day) + 2,
        spec_target_count(day) <= spec_target_count(day + 1) <= spec_target_count(day) + 2,
        spec_target_count(day) % 2 == 0,
{
}

/// Number of targets the attack is spread over on `day`.
pub fn target_count(day: i32) -> (n: usize)
    requires
        day >= i32::MIN + 10,
    ensures
        n == spec_target_count(day as int),
        n >= 10,
        n % 2 == 0,
{
    let past: i64 = if (day as i64) - 10 > 0 { (day as i64) - 10 } else { 0 };
    let n: i64 = 10 + 2 * (past / 2);
    n as usize
}

/// Part of the attack that one flag removes, and that every target gets back
/// at the end: 2.5 % of the attack, rounded half away from zero.
pub open spec fn spec_flag_share(attacking: int) -> int {
    round_div(attacking, 40)
}

/// The flag share is 2.5 % of the attack to the nearest unit:
/// `40 * share` is within 20 of `attacking`, and an exact half goes away
/// from zero.
pub proof fn lemma_flag_share_is_rounded_fortieth(attacking: int)
    ensures
        -20 <= 40 * spec_flag_share(attacking) - attacking <= 20,
        attacking >= 0 ==> -20 < 40 * spec_flag_share(attacking) - attacking,
        attacking < 0 ==> 40 * spec_flag_share(attacking) - attacking < 20,
{
    lemma_round_div_close(attacking, 40);
}

/// 2.5 % of `attacking`, rounded half away from zero.
pub fn flag_share(attacking: i32) -> (s: i32)
    ensures
        s == spec_flag_share(attacking as int),
{
    let a = attacking as i128;
    let r = round_div_i128(a, 40);
    assert(-53687092 <= r <= 53687092) by (nonlinear_arith)
        requires
            r == round_div(a as int, 40),
            i32::MIN <= a <= i32::MAX,
    ;
    r as i32
}

/// How the attack is split once the flags have been taken into account.
#[derive(Clone, Copy, Debug, PartialEq, Eq, Structural)]
pub struct FlagSplit {
    /// The part of the attack that is spread over the targets at random.
    pub leftover: i32,
    /// The flag share that every target receives on top.
    pub bonus: i32,
}

/// The attack left after `drapo` flags have each removed their share
/// (no flag at all when `drapo` is not positive).
pub open spec fn spec_leftover(attacking: int, drapo: int) -> int {
    attacking - (if drapo > 0 { drapo } else { 0 }) * spec_flag_share(attacking)
}

/// Without flags the whole attack is spread; every flag takes one more flag
/// share away.
pub proof fn lemma_each_flag_takes_one_share(attacking: int, drapo: int)
    ensures
        drapo <= 0 ==> spec_leftover(attacking, drapo) == attacking,
        drapo >= 0 ==> spec_leftover(attacking, drapo + 1) == spec_leftover(attacking, drapo)
            - spec_flag_share(attacking),
{
    if drapo >= 0 {
        assert((drapo + 1) * spec_flag_share(attacking) == drapo * spec_flag_share(attacking)
            + spec_flag_share(attacking)) by (nonlinear_arith);
    }
}

/// Splits `attacking` into the part that is spread at random and the flag
/// bonus. `None` when the remaining attack does not fit an `i32`, where the
/// repeated `i32` subtraction of the flags overflows.
pub fn split_flags(attacking: i32, drapo: i32) -> (r: Option<FlagSplit>)
    ensures
        r is Some <==> i32::MIN <= spec_leftover(attacking as int, drapo as int) <= i32::MAX,
        r matches Some(split) ==> {
            &&& split.leftover == spec_leftover(attacking as int, drapo as int)
            &&& split.bonus == spec_flag_share(attacking as int)
        },
{
    let share = flag_share(attacking);
    let flags: i64 = if drapo > 0 { drapo as i64 } else { 0 };
    assert(-53687092 <= share <= 53687092) by (nonlinear_arith)
        requires
            share == round_div(attacking as int, 40),
            i32::MIN <= attacking <= i32::MAX,
    ;
    assert(-0x400_0000_0000_0000 <= flags * share <= 0x400_0000_0000_0000) by (nonlinear_arith)
        requires
            0 <= flags <= 0x8000_0000,
            -53687092 <= share <= 53687092,
    ;
    let leftover: i64 = attacking as i64 - flags * (share as i64);
    if leftover < i32::MIN as i64 || leftover > i32::MAX as i64 {
        None
    } else {
        Some(FlagSplit { leftover: leftover as i32, bonus: share })
    }
}

/// Numerator and denominator of the factor applied to the cubed base of the
/// attack: 3/4 during the first three days, 11/10 afterwards.
pub open spec fn attack_ratio(day: int) -> (int, int) {
    if day <= 3 {
        (3, 4)
    } else {
        (11, 10)
    }
}

/// `ratio(day) * (k / 4)^3`, rounded half away from zero and saturated to
/// the range of `i32`.
pub open spec fn scaled_cube(day: int, k: int) -> int {
    let (num, den) = attack_ratio(day);
    saturate_i32(round_div(num * (k * k * k), den * 64))
}

/// Lowest nightly attack of `day`: `ratio * (0.75 * max(1, day - 1) + 2.5)^3`.
pub open spec fn spec_low_attack(day: int) -> int {
    scaled_cube(day, 3 * (if day - 1 > 1 { day - 1 } else { 1 }) + 10)
}

/// Highest nightly attack of `day`: `ratio * (0.75 * day + 3.5)^3`.
pub open spec fn spec_high_attack(day: int) -> int {
    scaled_cube(day, 3 * day + 14)
}

/// From the first day on, the lowest attack of a day never exceeds its
/// highest attack.
pub proof fn lemma_attack_bounds_ordered(day: int)
    requires
        day >= 1,
    ensures
        spec_low_attack(day) <= spec_high_attack(day),
{
    let k1 = 3 * (if day - 1 > 1 { day - 1 } else { 1 }) + 10;
    let k2 = 3 * day + 14;
    let (num, den) = attack_ratio(day);
    assert(0 < k1 <= k2);
    assert(0 < k1 * k1 * k1 <= k2 * k2 * k2) by (nonlinear_arith)
        requires
            0 < k1 <= k2,
    ;
    let n1 = num * (k1 * k1 * k1);
    let n2 = num * (k2 * k2 * k2);
    assert(0 <= n1 <= n2) by (nonlinear_arith)
        requires
            0 < k1 * k1 * k1 <= k2 * k2 * k2,
            num > 0,
            n1 == num * (k1 * k1 * k1),
            n2 == num * (k2 * k2 * k2),
    ;
    lemma_div_is_ordered(2 * n1 + den * 64, 2 * n2 + den * 64, 2 * (den * 64));
}

/// The attack bounds follow the day's factor: from the fourth day on,
/// `1.1 * (0.75 * max(1, day - 1) + 2.5)^3` and `1.1 * (0.75 * day + 3.5)^3`
/// (each within half a unit, i.e. `640 * bound` within 320 of `11 * k^3`),
/// and on the first three days the same bases with the factor 0.75
/// (`256 * bound` within 128 of `3 * k^3`), wherever the exact value lies in
/// the range of `i32`.
pub proof fn lemma_attack_bounds_follow_ratio(day: int)
    ensures
        ({
            let k = 3 * (if day - 1 > 1 { day - 1 } else { 1 }) + 10;
            day >= 4 && 640 * (i32::MIN as int) <= 11 * (k * k * k) <= 640 * (i32::MAX as int)
                ==> -320 <= 640 * spec_low_attack(day) - 11 * (k * k * k) <= 320
        }),
        ({
            let k = 3 * day + 14;
            day >= 4 && 640 * (i32::MIN as int) <= 11 * (k * k * k) <= 640 * (i32::MAX as int)
                ==> -320 <= 640 * spec_high_attack(day) - 11 * (k * k * k) <= 320
        }),
        ({
            let k = 3 * (if day - 1 > 1 { day - 1 } else { 1 }) + 10;
            day <= 3 && 256 * (i32::MIN as int) <= 3 * (k * k * k) <= 256 * (i32::MAX as int)
                ==> -128 <= 256 * spec_low_attack(day) - 3 * (k * k * k) <= 128
        }),
        ({
            let k = 3 * day + 14;
            day <= 3 && 256 * (i32::MIN as int) <= 3 * (k * k * k) <= 256 * (i32::MAX as int)
                ==> -128 <= 256 * spec_high_attack(day) - 3 * (k * k * k) <= 128
        }),
{
    let k1 = 3 * (if day - 1 > 1 { day - 1 } else { 1 }) + 10;
    let k2 = 3 * day + 14;
    if day >= 4 {
        lemma_round_div_close(11 * (k1 * k1 * k1), 640);
        lemma_round_div_close(11 * (k2 * k2 * k2), 640);
        if 640 * (i32::MIN as int) <= 11 * (k1 * k1 * k1) <= 640 * (i32::MAX as int) {
            lemma_round_div_in_range(11 * (k1 * k1 * k1), 640);
        }
        if 640 * (i32::MIN as int) <= 11 * (k2 * k2 * k2) <= 640 * (i32::MAX as int) {
            lemma_round_div_in_range(11 * (k2 * k2 * k2), 640);
        }
    } else {
        lemma_round_div_close(3 * (k1 * k1 * k1), 256);
        lemma_round_div_close(3 * (k2 * k2 * k2), 256);
        if 256 * (i32::MIN as int) <= 3 * (k1 * k1 * k1) <= 256 * (i32::MAX as int) {
            lemma_round_div_in_range(3 * (k1 * k1 * k1), 256);
        }
        if 256 * (i32::MIN as int) <= 3 * (k2 * k2 * k2) <= 256 * (i32::MAX as int) {
            lemma_round_div_in_range(3 * (k2 * k2 * k2), 256);
        }
    }
}

fn scaled_cube_i32(day: i32, k: i128) -> (r: i32)
    requires
        -0x4_0000_0000 < k < 0x4_0000_0000,
    ensures
        r == scaled_cube(day as int, k as int),
{
    let (num, den): (i128, i128) = if day <= 3 { (3, 4) } else { (11, 10) };
    assert(0 <= k * k < 0x10_0000_0000_0000_0000) by (nonlinear_arith)
        requires
            -0x4_0000_0000 < k < 0x4_0000_0000,
    ;
    let square: i128 = k * k;
    assert(-0x40_0000_0000_0000_0000_0000_0000 < square * k < 0x40_0000_0000_0000_0000_0000_0000)
        by (nonlinear_arith)
        requires
            -0x4_0000_0000 < k < 0x4_0000_0000,
            0 <= square < 0x10_0000_0000_0000_0000,
    ;
    let cube: i128 = square * k;
    let rounded = round_div_i128(num * cube, den * 64);
    if rounded > i32::MAX as i128 {
        i32::MAX
    } else if rounded < i32::MIN as i128 {
        i32::MIN
    } else {
        rounded as i32
    }
}

/// Lowest and highest nightly attack of `day`.
pub fn attack_bounds(day: i32) -> (r: (i32, i32))
    requires
        day > i32::MIN,
    ensures
        r.0 == spec_low_attack(day as int),
        r.1 == spec_high_attack(day as int),
{
    let base: i128 = if day as i128 - 1 > 1 { day as i128 - 1 } else { 1 };
    let lo = scaled_cube_i32(day, 3 * base + 10);
    let hi = scaled_cube_i32(day, 3 * (day as i128) + 14);
    (lo, hi)
}

} // verus!
