//! Distribution of the nightly attack strength over an interval of values,
//! as exact probabilities: each attack value carries an integer weight, and
//! its probability is that weight over the common denominator.

use vstd::prelude::*;
use crate::rules::{attack_bounds, spec_high_attack, spec_low_attack};

verus! {

/// Attack values with their weights; the probability of a value is its
/// weight divided by `denominator`.
pub struct AttackDistribution {
    /// Attack values and their weights.
    pub entries: Vec<(i32, u64)>,
    /// Common denominator of the probabilities.
    pub denominator: u64,
}

/// Sum of the weights of `entries`.
pub open spec fn weight_total(entries: Seq<(i32, u64)>) -> int
    decreases entries.len(),
{
    if entries.len() == 0 {
        0
    } else {
        weight_total(entries.drop_last()) + entries.last().1
    }
}

/// The `n` consecutive attack values from `first`: those up to `split`
/// weigh `low`, the others weigh `high`.
pub open spec fn step_entries(first: int, n: nat, split: int, low: int, high: int) -> Seq<(i32, u64)> {
    Seq::new(n, |j: int| ((first + j) as i32, (if first + j <= split { low } else { high }) as u64))
}

/// How many of the `n` values from `first` are at most `split`.
pub open spec fn count_up_to(first: int, n: int, split: int) -> int {
    let below = split - first + 1;
    if below <= 0 {
        0
    } else if below >= n {
        n
    } else {
        below
    }
}

/// The weights of a two-step distribution add up to one `high` per value and
/// the difference `low - high` for each value up to `split`.
pub proof fn lemma_step_total(first: int, n: nat, split: int, low: int, high: int)
    requires
        0 <= high <= low <= u64::MAX,
    ensures
        weight_total(step_entries(first, n, split, low, high)) == n * high + count_up_to(
            first,
            n as int,
            split,
        ) * (low - high),
    decreases n,
{
    let s = step_entries(first, n, split, low, high);
    if n == 0 {
        assert(n * high == 0 && count_up_to(first, n as int, split) * (low - high) == 0)
            by (nonlinear_arith)
            requires
                n == 0,
                count_up_to(first, n as int, split) == 0,
        ;
    } else {
        let m = (n - 1) as nat;
        assert(s.drop_last() =~= step_entries(first, m, split, low, high));
        lemma_step_total(first, m, split, low, high);
        let c = count_up_to(first, m as int, split);
        assert(s.last().1 == (if first + m <= split { low } else { high }));
        if first + m <= split {
            assert(count_up_to(first, n as int, split) == c + 1);
        } else {
            assert(count_up_to(first, n as int, split) == c);
        }
        assert(n * high == m * high + high) by (nonlinear_arith)
            requires
                n == m + 1,
        ;
        assert((c + 1) * (low - high) == c * (low - high) + (low - high)) by (nonlinear_arith);
    }
}

/// `lo + 0.5 * (hi - lo)`, rounded down.
pub open spec fn spec_midpoint(lo: int, hi: int) -> int {
    lo + (hi - lo) / 2
}

/// `lo + 0.5 * (hi - lo)`, rounded down.
fn midpoint(lo: i32, hi: i32) -> (m: i32)
    requires
        i32::MIN <= hi - lo <= i32::MAX,
    ensures
        m == spec_midpoint(lo as int, hi as int),
{
    let d: i64 = hi as i64 - lo as i64;
    let half: i64 = if d >= 0 {
        d / 2
    } else {
        -((-d + 1) / 2)
    };
    (lo as i64 + half) as i32
}

/// Builds `step_entries(first, n, split, low, high)`.
fn build_step_entries(first: i32, n: u32, split: i32, low: u64, high: u64) -> (v: Vec<(i32, u64)>)
    requires
        first + n - 1 <= i32::MAX,
    ensures
        v@ == step_entries(first as int, n as nat, split as int, low as int, high as int),
{
    let mut v: Vec<(i32, u64)> = Vec::new();
    let mut j: u32 = 0;
    while j < n
        invariant
            j <= n,
            first + n - 1 <= i32::MAX,
            v@ =~= step_entries(first as int, j as nat, split as int, low as int, high as int),
        decreases n - j,
    {
        let a: i32 = (first as i64 + j as i64) as i32;
        let w: u64 = if a <= split { low } else { high };
        v.push((a, w));
        j = j + 1;
        assert(v@ =~= step_entries(first as int, j as nat, split as int, low as int, high as int));
    }
    v
}

/// Midpoint between the lowest and highest attack of `day`.
pub open spec fn reroll_split(day: int) -> int {
    spec_midpoint(spec_low_attack(day), spec_high_attack(day))
}

/// Number of values of `tdg_min..=tdg_max` above `split`.
pub open spec fn high_count(tdg_max: int, split: int) -> int {
    if split < tdg_max {
        tdg_max - split
    } else {
        0
    }
}

/// The `i32` arithmetic of the distribution of `day` over
/// `tdg_min..=tdg_max` does not overflow.
pub open spec fn reroll_fits(tdg_min: int, tdg_max: int, day: int) -> bool {
    tdg_min <= tdg_max ==> {
        &&& day > i32::MIN
        &&& i32::MIN <= spec_high_attack(day) - spec_low_attack(day) <= i32::MAX
        &&& tdg_max - tdg_min + 1 <= i32::MAX
        &&& tdg_max - reroll_split(day) <= i32::MAX
    }
}

/// `r` is the distribution of the attack of `day` over `tdg_min..=tdg_max`
/// with one reroll: every value has probability `p = 1 / n` (`n` values), and
/// the values above the midpoint of the day's attack bounds are rerolled, so
/// that the values up to the midpoint get `p + reroll * p` and the others
/// `reroll * p`, where `reroll` is `p` times the number of values above the
/// midpoint. Empty when `tdg_min > tdg_max`.
pub open spec fn is_reroll_distribution(r: AttackDistribution, tdg_min: int, tdg_max: int, day: int) -> bool {
    if tdg_min > tdg_max {
        r.entries@.len() == 0
    } else {
        let n = tdg_max - tdg_min + 1;
        let split = reroll_split(day);
        let nh = high_count(tdg_max, split);
        &&& r.entries@ == step_entries(tdg_min, n as nat, split, n + nh, nh)
        &&& r.denominator == n * n
    }
}

/// The distribution of the attack of `day` over `tdg_min..=tdg_max`, with
/// the values above the midpoint of the day's attack bounds rerolled once.
/// `None` where the `i32` arithmetic of the computation overflows.
pub fn attack_distribution(tdg_min: i32, tdg_max: i32, day: i32) -> (r: Option<AttackDistribution>)
    ensures
        r is Some <==> reroll_fits(tdg_min as int, tdg_max as int, day as int),
        r matches Some(d) ==> is_reroll_distribution(d, tdg_min as int, tdg_max as int, day as int),
{
    if tdg_min > tdg_max {
        return Some(AttackDistribution { entries: Vec::new(), denominator: 1 });
    }
    if day == i32::MIN {
        return None;
    }
    let (lo, hi) = attack_bounds(day);
    let spread: i64 = hi as i64 - lo as i64;
    if spread < i32::MIN as i64 || spread > i32::MAX as i64 {
        return None;
    }
    let split = midpoint(lo, hi);
    let count: i64 = tdg_max as i64 - tdg_min as i64 + 1;
    if count > i32::MAX as i64 || tdg_max as i64 - split as i64 > i32::MAX as i64 {
        return None;
    }
    let n: u32 = count as u32;
    let nh: u64 = if split < tdg_max { (tdg_max as i64 - split as i64) as u64 } else { 0 };
    let entries = build_step_entries(tdg_min, n, split, n as u64 + nh, nh);
    assert(n as u64 * n as u64 <= 0x4000_0000_0000_0000) by (nonlinear_arith)
        requires
            n <= 0x8000_0000,
    ;
    Some(AttackDistribution { entries, denominator: n as u64 * n as u64 })
}

/// The reroll distribution over `tdg_min..=tdg_max` lists every value of
/// the interval once, in order, and weighs it against the midpoint
/// `mid = lo + (hi - lo) / 2` (rounded down) of the day's lowest and
/// highest attack: a value up to `mid` weighs `n` plus the number of values
/// above `mid`, a value above `mid` weighs that number, over `n * n`. In
/// particular, when `mid` is not below `tdg_max`, every value weighs `n`
/// (the uniform distribution).
pub proof fn lemma_reroll_weights(tdg_min: int, tdg_max: int, day: int, r: AttackDistribution)
    requires
        i32::MIN <= tdg_min <= tdg_max <= i32::MAX,
        reroll_fits(tdg_min, tdg_max, day),
        is_reroll_distribution(r, tdg_min, tdg_max, day),
    ensures
        ({
            let n = tdg_max - tdg_min + 1;
            let mid = spec_low_attack(day) + (spec_high_attack(day) - spec_low_attack(day)) / 2;
            let above = if mid < tdg_max { tdg_max - mid } else { 0 };
            &&& r.entries@.len() == n
            &&& r.denominator == n * n
            &&& forall|j: int| 0 <= j < n ==> #[trigger] r.entries@[j].0 == tdg_min + j
            &&& forall|j: int|
                0 <= j < n && tdg_min + j <= mid ==> #[trigger] r.entries@[j].1 == n + above
            &&& forall|j: int| 0 <= j < n && tdg_min + j > mid ==> #[trigger] r.entries@[j].1 == above
            &&& mid >= tdg_max ==> forall|j: int| 0 <= j < n ==> #[trigger] r.entries@[j].1 == n
        }),
{
    let n = tdg_max - tdg_min + 1;
    let mid = reroll_split(day);
    let above = high_count(tdg_max, mid);
    let e = step_entries(tdg_min, n as nat, mid, n + above, above);
    assert(r.entries@ == e);
    assert forall|j: int| 0 <= j < n implies {
        &&& #[trigger] r.entries@[j].0 == tdg_min + j
        &&& tdg_min + j <= mid ==> r.entries@[j].1 == n + above
        &&& tdg_min + j > mid ==> r.entries@[j].1 == above
    } by {
        assert(r.entries@[j] == e[j]);
    }
}

/// The weighted distribution over `tdg_min..=tdg_max` lists every value of
/// the interval once, in order; the values up to the middle
/// `tdg_min + (tdg_max - tdg_min) / 2` weigh 2, the others 1, over the sum
/// of the weights.
pub proof fn lemma_weighted_weights(tdg_min: int, tdg_max: int, r: AttackDistribution)
    requires
        i32::MIN <= tdg_min <= tdg_max <= i32::MAX,
        weighted_fits(tdg_min, tdg_max),
        is_weighted_distribution(r, tdg_min, tdg_max),
    ensures
        ({
            let n = tdg_max - tdg_min + 1;
            let mid = tdg_min + (tdg_max - tdg_min) / 2;
            &&& r.entries@.len() == n
            &&& r.denominator == n + (mid - tdg_min + 1)
            &&& forall|j: int| 0 <= j < n ==> #[trigger] r.entries@[j].0 == tdg_min + j
            &&& forall|j: int| 0 <= j < n && tdg_min + j <= mid ==> #[trigger] r.entries@[j].1 == 2
            &&& forall|j: int| 0 <= j < n && tdg_min + j > mid ==> #[trigger] r.entries@[j].1 == 1
        }),
{
    let n = tdg_max - tdg_min + 1;
    let mid = spec_midpoint(tdg_min, tdg_max);
    let e = step_entries(tdg_min, n as nat, mid, 2, 1);
    assert(r.entries@ == e);
    assert(weighted_low_count(tdg_min, tdg_max) == mid - tdg_min + 1);
    assert forall|j: int| 0 <= j < n implies {
        &&& #[trigger] r.entries@[j].0 == tdg_min + j
        &&& tdg_min + j <= mid ==> r.entries@[j].1 == 2
        &&& tdg_min + j > mid ==> r.entries@[j].1 == 1
    } by {
        assert(r.entries@[j] == e[j]);
    }
}

/// The reroll distribution of `day` sums to one whenever its midpoint is not
/// below `tdg_min - 1`: the low values then take `n + nh` each and the
/// `nh` high values `nh` each, `n * n` in all.
pub proof fn lemma_reroll_distribution_sums_to_one(tdg_min: int, tdg_max: int, day: int, r: AttackDistribution)
    requires
        tdg_min <= tdg_max,
        reroll_fits(tdg_min, tdg_max, day),
        is_reroll_distribution(r, tdg_min, tdg_max, day),
        reroll_split(day) >= tdg_min - 1,
    ensures
        weight_total(r.entries@) == r.denominator,
{
    let n = tdg_max - tdg_min + 1;
    let split = reroll_split(day);
    let nh = high_count(tdg_max, split);
    lemma_step_total(tdg_min, n as nat, split, n + nh, nh);
    if split >= tdg_max {
        assert(count_up_to(tdg_min, n, split) == n);
        assert(n * 0 + n * (n + 0 - 0) == n * n) by (nonlinear_arith);
    } else {
        let c = split - tdg_min + 1;
        assert(count_up_to(tdg_min, n, split) == c);
        assert(n * nh + c * n == n * n) by (nonlinear_arith)
            requires
                nh == tdg_max - split,
                c == split - tdg_min + 1,
                n == tdg_max - tdg_min + 1,
        ;
    }
}

/// Number of values of `tdg_min..=tdg_max` that weigh double in the weighted
/// distribution: those up to the middle of the interval.
pub open spec fn weighted_low_count(tdg_min: int, tdg_max: int) -> int {
    let split = spec_midpoint(tdg_min, tdg_max);
    if split < tdg_min {
        0
    } else {
        (if split < tdg_max { split } else { tdg_max }) - tdg_min + 1
    }
}

/// The `i32` arithmetic of the weighted distribution does not overflow.
pub open spec fn weighted_fits(tdg_min: int, tdg_max: int) -> bool {
    tdg_min <= tdg_max ==> {
        let n = tdg_max - tdg_min + 1;
        let low = weighted_low_count(tdg_min, tdg_max);
        &&& n <= i32::MAX
        &&& 2 * low <= i32::MAX
        &&& 2 * low + (n - low) <= i32::MAX
    }
}

/// `r` is the weighted distribution over `tdg_min..=tdg_max`: the values up
/// to the middle of the interval weigh 2, the others 1, over the sum of the
/// weights. Empty when `tdg_min > tdg_max`.
pub open spec fn is_weighted_distribution(r: AttackDistribution, tdg_min: int, tdg_max: int) -> bool {
    if tdg_min > tdg_max {
        r.entries@.len() == 0
    } else {
        let n = tdg_max - tdg_min + 1;
        let low = weighted_low_count(tdg_min, tdg_max);
        &&& r.entries@ == step_entries(tdg_min, n as nat, spec_midpoint(tdg_min, tdg_max), 2, 1)
        &&& r.denominator == 2 * low + (n - low)
    }
}

/// The distribution of the debugging tools: the lower half of
/// `tdg_min..=tdg_max` is twice as likely as the upper half. `None` where the
/// `i32` arithmetic of the computation overflows.
pub fn weighted_attack_distribution(tdg_min: i32, tdg_max: i32) -> (r: Option<AttackDistribution>)
    ensures
        r is Some <==> weighted_fits(tdg_min as int, tdg_max as int),
        r matches Some(d) ==> is_weighted_distribution(d, tdg_min as int, tdg_max as int),
{
    if tdg_min > tdg_max {
        return Some(AttackDistribution { entries: Vec::new(), denominator: 1 });
    }
    if tdg_max as i64 - tdg_min as i64 + 1 > i32::MAX as i64 {
        return None;
    }
    let split = midpoint(tdg_min, tdg_max);
    let n: i32 = tdg_max - tdg_min + 1;
    let low: i32 = if split < tdg_min {
        0
    } else {
        (if split < tdg_max { split } else { tdg_max }) - tdg_min + 1
    };
    if 2 * (low as i64) > i32::MAX as i64 || 2 * (low as i64) + (n as i64 - low as i64)
        > i32::MAX as i64 {
        return None;
    }
    let total: i32 = 2 * low + (n - low);
    if total == 0 {
        return Some(AttackDistribution { entries: Vec::new(), denominator: 1 });
    }
    let entries = build_step_entries(tdg_min, n as u32, split, 2, 1);
    Some(AttackDistribution { entries, denominator: total as u64 })
}

/// The weighted distribution always sums to one.
pub proof fn lemma_weighted_distribution_sums_to_one(tdg_min: int, tdg_max: int, r: AttackDistribution)
    requires
        tdg_min <= tdg_max,
        weighted_fits(tdg_min, tdg_max),
        is_weighted_distribution(r, tdg_min, tdg_max),
    ensures
        weight_total(r.entries@) == r.denominator,
{
    let n = tdg_max - tdg_min + 1;
    let split = spec_midpoint(tdg_min, tdg_max);
    lemma_step_total(tdg_min, n as nat, split, 2, 1);
    assert(count_up_to(tdg_min, n, split) == weighted_low_count(tdg_min, tdg_max));
}

/// What the observation-based estimator reported: how many of its
/// simulated attacks matched the observations, per attack value and in all.
pub struct EstimatorReport {
    /// Attack values and the number of matching simulations of each.
    pub counts: Vec<(i64, u64)>,
    /// Number of matching simulations in all.
    pub total_matches: u64,
}

/// One estimator count as a distribution entry: the attack value cast to
/// `i32` (as `as i32` casts) and the count as weight.
pub open spec fn estimate_entry(e: (i64, u64)) -> (i32, u64) {
    (e.0 as i32, e.1)
}

/// Records `e` as a map insertion does: a value already present keeps its
/// place and takes the new weight, a new value is appended.
pub open spec fn insert_entry(entries: Seq<(i32, u64)>, e: (i32, u64)) -> Seq<(i32, u64)> {
    if holds_value(entries, e.0) {
        entries.update(value_position(entries, e.0), e)
    } else {
        entries.push(e)
    }
}

/// Some entry holds the attack value `a`.
pub open spec fn holds_value(entries: Seq<(i32, u64)>, a: i32) -> bool {
    exists|j: int| 0 <= j < entries.len() && entries[j].0 == a
}

/// A position of an entry holding the attack value `a`.
pub open spec fn value_position(entries: Seq<(i32, u64)>, a: i32) -> int {
    choose|j: int| 0 <= j < entries.len() && entries[j].0 == a
}

/// The estimator's counts inserted in order, attack values cast to `i32`:
/// when two counts fall on the same value, the later one wins.
pub open spec fn estimate_entries(counts: Seq<(i64, u64)>) -> Seq<(i32, u64)>
    decreases counts.len(),
{
    if counts.len() == 0 {
        Seq::empty()
    } else {
        insert_entry(estimate_entries(counts.drop_last()), estimate_entry(counts.last()))
    }
}

/// No attack value appears twice.
pub open spec fn distinct_values(entries: Seq<(i32, u64)>) -> bool {
    forall|i: int, j: int|
        0 <= i < entries.len() && 0 <= j < entries.len() && i != j ==> #[trigger] entries[i].0
            != #[trigger] entries[j].0
}

/// Inserting keeps the attack values distinct.
pub proof fn lemma_estimate_entries_distinct(counts: Seq<(i64, u64)>)
    ensures
        distinct_values(estimate_entries(counts)),
    decreases counts.len(),
{
    if counts.len() > 0 {
        let prev = counts.drop_last();
        lemma_estimate_entries_distinct(prev);
        let e0 = estimate_entries(prev);
        let e = estimate_entry(counts.last());
        if holds_value(e0, e.0) {
            let p = value_position(e0, e.0);
            assert(0 <= p < e0.len() && e0[p].0 == e.0);
            let e1 = e0.update(p, e);
            assert forall|i: int, j: int|
                0 <= i < e1.len() && 0 <= j < e1.len() && i != j implies #[trigger] e1[i].0
                != #[trigger] e1[j].0 by {
                assert(e1[i].0 == e0[i].0);
                assert(e1[j].0 == e0[j].0);
            }
        } else {
            let e1 = e0.push(e);
            assert forall|i: int, j: int|
                0 <= i < e1.len() && 0 <= j < e1.len() && i != j implies #[trigger] e1[i].0
                != #[trigger] e1[j].0 by {
                if i < e0.len() && j < e0.len() {
                    assert(e1[i] == e0[i] && e1[j] == e0[j]);
                } else if i < e0.len() {
                    assert(e1[i] == e0[i]);
                    assert(!(0 <= i < e0.len() && e0[i].0 == e.0));
                } else {
                    assert(e1[j] == e0[j]);
                    assert(!(0 <= j < e0.len() && e0[j].0 == e.0));
                }
            }
        }
    }
}

/// One insertion step: the last count lands at position `p`, either an
/// existing entry with its value or a new last entry; every other entry
/// stays, and holds another value.
proof fn lemma_estimate_step(counts: Seq<(i64, u64)>) -> (p: int)
    requires
        counts.len() > 0,
    ensures
        ({
            let e0 = estimate_entries(counts.drop_last());
            let e1 = estimate_entries(counts);
            let e = estimate_entry(counts.last());
            &&& 0 <= p <= e0.len()
            &&& e1.len() == (if p == e0.len() { e0.len() + 1int } else { e0.len() as int })
            &&& e1[p] == e
            &&& forall|j: int|
                0 <= j < e1.len() && j != p ==> #[trigger] e1[j] == e0[j] && e0[j].0 != e.0
        }),
{
    let prev = counts.drop_last();
    lemma_estimate_entries_distinct(prev);
    let e0 = estimate_entries(prev);
    let e = estimate_entry(counts.last());
    let e1 = estimate_entries(counts);
    let found = holds_value(e0, e.0);
    let p = if found { value_position(e0, e.0) } else { e0.len() as int };
    if found {
        assert(0 <= p < e0.len() && e0[p].0 == e.0);
        assert(e1 == e0.update(p, e));
    } else {
        assert(e1 == e0.push(e));
    }
    assert forall|j: int| 0 <= j < e1.len() && j != p implies #[trigger] e1[j] == e0[j] && e0[j].0
        != e.0 by {
        if !found {
            assert(!(0 <= j < e0.len() && e0[j].0 == e.0));
        } else {
            assert(e0[j].0 != e0[p].0);
        }
    }
    p
}

/// The estimator's distribution keeps every attack value of the report:
/// each count's value (cast to `i32`) has an entry, and there are never
/// more entries than counts.
pub proof fn lemma_estimate_covers_counts(counts: Seq<(i64, u64)>)
    ensures
        estimate_entries(counts).len() <= counts.len(),
        forall|i: int|
            0 <= i < counts.len() ==> exists|j: int|
                0 <= j < estimate_entries(counts).len() && estimate_entries(counts)[j].0
                    == #[trigger] counts[i].0 as i32,
    decreases counts.len(),
{
    if counts.len() > 0 {
        let n = counts.len() - 1;
        let prev = counts.drop_last();
        lemma_estimate_covers_counts(prev);
        let p = lemma_estimate_step(counts);
        let e0 = estimate_entries(prev);
        let e1 = estimate_entries(counts);
        assert forall|i: int| 0 <= i < counts.len() implies exists|j: int|
            0 <= j < e1.len() && e1[j].0 == #[trigger] counts[i].0 as i32 by {
            if i == n {
                assert(e1[p].0 == counts[i].0 as i32);
            } else {
                assert(prev[i] == counts[i]);
                let j = choose|j: int| 0 <= j < e0.len() && e0[j].0 == #[trigger] prev[i].0 as i32;
                if j == p {
                    assert(e1[p].0 == e0[p].0);
                } else {
                    assert(e1[j] == e0[j]);
                }
                assert(e1[j].0 == counts[i].0 as i32);
            }
        }
    }
}

/// The estimator's distribution invents nothing: each entry is one of the
/// counts (value cast to `i32`), and when several counts fall on the same
/// value, the entry carries the last of them.
pub proof fn lemma_estimate_entries_from_counts(counts: Seq<(i64, u64)>)
    ensures
        forall|j: int|
            0 <= j < estimate_entries(counts).len() ==> exists|i: int|
                0 <= i < counts.len() && #[trigger] estimate_entries(counts)[j] == (
                    counts[i].0 as i32,
                    counts[i].1,
                ) && forall|i2: int|
                    i < i2 < counts.len() ==> #[trigger] counts[i2].0 as i32
                        != estimate_entries(counts)[j].0,
    decreases counts.len(),
{
    if counts.len() > 0 {
        let n = counts.len() - 1;
        let prev = counts.drop_last();
        lemma_estimate_entries_from_counts(prev);
        let p = lemma_estimate_step(counts);
        let e0 = estimate_entries(prev);
        let e1 = estimate_entries(counts);
        assert forall|j: int| 0 <= j < e1.len() implies exists|i: int|
            0 <= i < counts.len() && #[trigger] e1[j] == (counts[i].0 as i32, counts[i].1)
                && forall|i2: int| i < i2 < counts.len() ==> #[trigger] counts[i2].0 as i32
                    != e1[j].0 by {
            if j == p {
                assert(e1[j] == (counts[n].0 as i32, counts[n].1));
            } else {
                let i = choose|i: int|
                    0 <= i < prev.len() && #[trigger] e0[j] == (prev[i].0 as i32, prev[i].1)
                        && forall|i2: int| i < i2 < prev.len() ==> #[trigger] prev[i2].0 as i32
                            != e0[j].0;
                assert(prev[i] == counts[i]);
                assert forall|i2: int| i < i2 < counts.len() implies #[trigger] counts[i2].0 as i32
                    != e1[j].0 by {
                    if i2 < n {
                        assert(prev[i2] == counts[i2]);
                    }
                }
                assert(e1[j] == (counts[i].0 as i32, counts[i].1));
            }
        }
    }
}

/// When the counts fall on distinct attack values, the estimator's
/// distribution is exactly the counts, in order, values cast to `i32`.
pub proof fn lemma_estimate_entries_of_distinct_counts(counts: Seq<(i64, u64)>)
    requires
        forall|i: int, j: int|
            0 <= i < counts.len() && 0 <= j < counts.len() && i != j ==> #[trigger] counts[i].0 as i32
                != #[trigger] counts[j].0 as i32,
    ensures
        estimate_entries(counts).len() == counts.len(),
        forall|i: int|
            0 <= i < counts.len() ==> #[trigger] estimate_entries(counts)[i] == (
                counts[i].0 as i32,
                counts[i].1,
            ),
    decreases counts.len(),
{
    if counts.len() > 0 {
        let n = counts.len() - 1;
        let prev = counts.drop_last();
        assert forall|i: int, j: int|
            0 <= i < prev.len() && 0 <= j < prev.len() && i != j implies #[trigger] prev[i].0 as i32
            != #[trigger] prev[j].0 as i32 by {
            assert(prev[i] == counts[i] && prev[j] == counts[j]);
        }
        lemma_estimate_entries_of_distinct_counts(prev);
        let e0 = estimate_entries(prev);
        let e = estimate_entry(counts.last());
        if holds_value(e0, e.0) {
            let p = value_position(e0, e.0);
            assert(0 <= p < e0.len() && e0[p].0 == e.0);
            assert(e0[p] == (prev[p].0 as i32, prev[p].1));
            assert(prev[p] == counts[p]);
            assert(false);
        }
        assert(estimate_entries(counts) == e0.push(e));
        assert forall|i: int| 0 <= i < counts.len() implies #[trigger] estimate_entries(counts)[i]
            == (counts[i].0 as i32, counts[i].1) by {
            if i < n {
                assert(prev[i] == counts[i]);
                assert(e0[i] == (prev[i].0 as i32, prev[i].1));
            }
        }
    }
}

/// `r` is the estimator's distribution: every count over the number of
/// matches, one entry per attack value.
pub open spec fn is_estimated_distribution(r: AttackDistribution, report: EstimatorReport) -> bool {
    &&& r.entries@ == estimate_entries(report.counts@)
    &&& r.denominator == report.total_matches
}

/// The distribution that the estimator's counts describe.
pub fn estimated_distribution(report: &EstimatorReport) -> (r: AttackDistribution)
    ensures
        is_estimated_distribution(r, *report),
        distinct_values(r.entries@),
{
    let n = report.counts.len();
    let mut entries: Vec<(i32, u64)> = Vec::new();
    for i in 0..n
        invariant
            n == report.counts.len(),
            entries@ == estimate_entries(report.counts@.take(i as int)),
            distinct_values(entries@),
    {
        let (k, v) = report.counts[i];
        #[verifier::truncate]
        let a = k as i32;
        let ghost old_entries = entries@;
        assert(report.counts@.take(i + 1).drop_last() =~= report.counts@.take(i as int));
        assert(estimate_entry(report.counts@[i as int]) == (a, v));
        let m = entries.len();
        let mut j: usize = 0;
        while j < m && entries[j].0 != a
            invariant
                m == entries.len(),
                j <= m,
                entries@ == old_entries,
                forall|t: int| 0 <= t < j ==> entries@[t].0 != a,
            decreases m - j,
        {
            j = j + 1;
        }
        if j < m {
            proof {
                assert(0 <= j < old_entries.len() && old_entries[j as int].0 == a);
                assert(holds_value(old_entries, a));
                let w = value_position(old_entries, a);
                assert(0 <= w < old_entries.len() && old_entries[w].0 == a);
                if w != j {
                    assert(old_entries[w].0 != old_entries[j as int].0);
                }
                assert(w == j);
            }
            entries.set(j, (a, v));
            assert(entries@ =~= insert_entry(old_entries, (a, v)));
        } else {
            entries.push((a, v));
            assert(entries@ =~= insert_entry(old_entries, (a, v)));
        }
        assert(distinct_values(entries@));
    }
    assert(report.counts@.take(n as int) =~= report.counts@);
    AttackDistribution { entries, denominator: report.total_matches }
}

/// Whether the observation-based estimator is to be run: its configuration
/// is present and enabled, and at least one observation could be read.
pub fn estimator_should_run(enabled: Option<bool>, valid_observations: usize) -> (r: bool)
    ensures
        r == (enabled == Some(true) && valid_observations > 0),
{
    match enabled {
        Some(true) => valid_observations > 0,
        _ => false,
    }
}

/// The distribution of the attack of `day`: the estimator's when it ran and
/// found at least one match, otherwise the reroll distribution over
/// `tdg_interval` (`None` where that one overflows).
pub fn select_attack_distribution(
    day: i32,
    tdg_interval: (i32, i32),
    report: Option<&EstimatorReport>,
) -> (r: Option<AttackDistribution>)
    ensures
        report matches Some(rep) ==> (rep.total_matches > 0 ==> (r matches Some(d)
            && is_estimated_distribution(d, *rep))),
        !(report matches Some(rep) && rep.total_matches > 0) ==> {
            &&& r is Some <==> reroll_fits(tdg_interval.0 as int, tdg_interval.1 as int, day as int)
            &&& r matches Some(d) ==> is_reroll_distribution(
                d,
                tdg_interval.0 as int,
                tdg_interval.1 as int,
                day as int,
            )
        },
{
    match report {
        Some(rep) => {
            if rep.total_matches > 0 {
                return Some(estimated_distribution(rep));
            }
        },
        None => {},
    }
    attack_distribution(tdg_interval.0, tdg_interval.1, day)
}

} // verus!
