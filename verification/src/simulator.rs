//! The attack simulator: spreads the nightly attack over the targets.
//!
//! The random weights of the targets and their proportional shares are
//! floating-point work done by the caller; this module receives those shares
//! already rounded to integers, clamps them, hands out at random the part of
//! the attack that rounding left over, and adds the flag bonus.

use vstd::prelude::*;
use rand::Rng;
use rand_mt::Mt64;
use crate::arith::{total, lemma_total_push, lemma_total_update};
use crate::rules::{FlagSplit, spec_flag_share, spec_leftover};

verus! {

/// The 64-bit Mersenne Twister of `rand_mt`, carried opaquely.
#[verifier::external_type_specification]
#[verifier::external_body]
pub struct ExMt64(Mt64);

/// The generator that `Mt64::new` builds from `seed`.
pub uninterp spec fn seeded_generator(seed: u64) -> Mt64;

/// `rand_mt::Mt64::new`: the seeding is deterministic, so the generator is
/// a function of `seed` alone; it is named, not described.
pub assume_specification[ Mt64::new ](seed: u64) -> (r: Mt64)
    ensures
        r == seeded_generator(seed),
;

/// The index that `random_range(0..n)` draws from the generator `rng`, and
/// the generator after the draw.
pub uninterp spec fn index_draw(rng: Mt64, n: usize) -> (usize, Mt64);

/// `rand::random::<u64>()`: a seed drawn from the thread-local generator.
/// Any `u64` may come back; nothing is claimed about it.
#[verifier::external_body]
fn fresh_seed() -> u64 {
    rand::random::<u64>()
}

/// `rand::Rng::random_range(0..targets)` on a Mersenne Twister: an index
/// below `targets`. The source panics on an empty range, which `requires`
/// leaves out. The draw is deterministic: the index and the generator
/// afterwards depend on the generator before and on `targets` alone, and
/// are named by `index_draw`, not described.
#[verifier::external_body]
fn pick_target(rng: &mut Mt64, targets: usize) -> (i: usize)
    requires
        targets > 0,
    ensures
        i < targets,
        (i, *final(rng)) == index_draw(*old(rng), targets),
{
    rng.random_range(0..targets)
}

/// A proportional share clamped to `0..=leftover` (`max(0)` first, then
/// `min(leftover)`, so a negative `leftover` wins).
pub open spec fn clamp_share(x: i32, leftover: i32) -> i32 {
    let m: i32 = if x < 0 { 0 } else { x };
    if m > leftover {
        leftover
    } else {
        m
    }
}

/// All shares clamped.
pub open spec fn clamped_shares(shares: Seq<i32>, leftover: i32) -> Seq<i32> {
    shares.map_values(|x: i32| clamp_share(x, leftover))
}

/// The part of `leftover` that the clamped shares do not cover, and that is
/// handed out one unit at a time to targets drawn at random.
pub open spec fn undistributed(shares: Seq<i32>, leftover: i32) -> int {
    let rest = leftover - total(clamped_shares(shares, leftover));
    if rest > 0 {
        rest
    } else {
        0
    }
}

/// A sequence of `i32` as mathematical integers.
pub open spec fn as_ints(s: Seq<i32>) -> Seq<int> {
    s.map_values(|x: i32| x as int)
}

/// Hands out `units` units one at a time, each to the target that the
/// generator draws; the targets' attacks afterwards and the generator
/// afterwards.
pub open spec fn spread_units(rng: Mt64, alloc: Seq<int>, units: nat) -> (Seq<int>, Mt64)
    decreases units,
{
    if units == 0 {
        (alloc, rng)
    } else {
        let d = index_draw(rng, alloc.len() as usize);
        let next = if d.0 < alloc.len() {
            alloc.update(d.0 as int, alloc[d.0 as int] + 1)
        } else {
            alloc
        };
        spread_units(d.1, next, (units - 1) as nat)
    }
}

/// Spreading units never lowers a target and keeps the number of targets.
pub proof fn lemma_spread_grows(rng: Mt64, alloc: Seq<int>, units: nat)
    ensures
        spread_units(rng, alloc, units).0.len() == alloc.len(),
        forall|j: int|
            0 <= j < alloc.len() ==> alloc[j] <= #[trigger] spread_units(rng, alloc, units).0[j],
    decreases units,
{
    if units > 0 {
        let d = index_draw(rng, alloc.len() as usize);
        let next = if d.0 < alloc.len() {
            alloc.update(d.0 as int, alloc[d.0 as int] + 1)
        } else {
            alloc
        };
        lemma_spread_grows(d.1, next, (units - 1) as nat);
        assert forall|j: int| 0 <= j < alloc.len() implies alloc[j] <= next[j] by {}
    }
}

/// The clamped shares with the undistributed rest handed out from `rng`,
/// before the flag bonus, and the generator afterwards.
pub open spec fn spread_shares(rng: Mt64, shares: Seq<i32>, split: FlagSplit) -> (Seq<int>, Mt64) {
    spread_units(
        rng,
        as_ints(clamped_shares(shares, split.leftover)),
        undistributed(shares, split.leftover) as nat,
    )
}

/// The allocation drawn from `rng`: the spread shares plus the flag bonus.
pub open spec fn drawn_allocation(rng: Mt64, shares: Seq<i32>, split: FlagSplit) -> Seq<i32> {
    spread_shares(rng, shares, split).0.map_values(|x: int| (x + split.bonus) as i32)
}

/// The `i32` arithmetic of the allocation drawn from `rng` does not
/// overflow: the clamped shares sum to an `i32`, no target goes past
/// `i32::MAX` while the rest is handed out, and none leaves the `i32` range
/// when the flag bonus is added.
pub open spec fn allocation_fits(rng: Mt64, shares: Seq<i32>, split: FlagSplit) -> bool {
    let c = clamped_shares(shares, split.leftover);
    let s = spread_shares(rng, shares, split).0;
    &&& i32::MIN <= total(c) <= i32::MAX
    &&& forall|i: int|
        0 <= i < s.len() ==> #[trigger] s[i] <= i32::MAX && i32::MIN <= s[i] + split.bonus
            <= i32::MAX
}

/// `alloc` is one of the allocations that the simulation can produce from
/// `shares`: every target gets at least its clamped share plus the bonus,
/// and the targets together get the clamped shares, the undistributed rest
/// and one bonus each.
pub open spec fn is_allocation(alloc: Seq<i32>, shares: Seq<i32>, split: FlagSplit) -> bool {
    let c = clamped_shares(shares, split.leftover);
    &&& alloc.len() == shares.len()
    &&& forall|i: int| 0 <= i < alloc.len() ==> #[trigger] alloc[i] >= c[i] + split.bonus
    &&& total(alloc) == total(c) + undistributed(shares, split.leftover) + alloc.len()
        * split.bonus
}

/// No attack is lost: when the rounded shares do not exceed what the flags
/// left, the targets together receive the whole attack, less the flag share
/// of each flag, plus the flag share once per target.
pub proof fn lemma_attack_conserved(
    attacking: i32,
    drapo: i32,
    split: FlagSplit,
    shares: Seq<i32>,
    alloc: Seq<i32>,
)
    requires
        split.leftover == spec_leftover(attacking as int, drapo as int),
        split.bonus == spec_flag_share(attacking as int),
        total(clamped_shares(shares, split.leftover)) <= split.leftover,
        is_allocation(alloc, shares, split),
    ensures
        total(alloc) == attacking - (if drapo > 0 { drapo as int } else { 0 }) * spec_flag_share(
            attacking as int,
        ) + alloc.len() * spec_flag_share(attacking as int),
{
}

/// Every share clamped to `0..=leftover`, as the first step of the allocation.
pub fn clamp_shares(shares: &Vec<i32>, leftover: i32) -> (c: Vec<i32>)
    ensures
        c@ == clamped_shares(shares@, leftover),
{
    let n = shares.len();
    let mut out: Vec<i32> = Vec::new();
    for i in 0..n
        invariant
            n == shares.len(),
            out@ =~= clamped_shares(shares@, leftover).take(i as int),
    {
        let x = shares[i];
        let m: i32 = if x < 0 { 0 } else { x };
        let v: i32 = if m > leftover { leftover } else { m };
        out.push(v);
        assert(clamped_shares(shares@, leftover).take(i + 1) =~= clamped_shares(
            shares@,
            leftover,
        ).take(i as int).push(v));
    }
    assert(clamped_shares(shares@, leftover).take(n as int) =~= clamped_shares(shares@, leftover));
    out
}

/// Runs are repeatable: simulators built from the same seed allocate the
/// same shares identically and leave equal generators behind.
pub proof fn lemma_same_seed_same_allocation(
    a: AttackSimulator,
    b: AttackSimulator,
    seed: u64,
    shares: Seq<i32>,
    split: FlagSplit,
)
    requires
        a.rng == seeded_generator(seed),
        b.rng == seeded_generator(seed),
    ensures
        drawn_allocation(a.rng, shares, split) == drawn_allocation(b.rng, shares, split),
        allocation_fits(a.rng, shares, split) == allocation_fits(b.rng, shares, split),
        spread_shares(a.rng, shares, split).1 == spread_shares(b.rng, shares, split).1,
{
}

/// Simulates how one night's attack lands on the targets.
pub struct AttackSimulator {
    /// The generator of every random draw of the simulation.
    pub rng: Mt64,
}

impl AttackSimulator {
    /// A simulator whose generator is seeded from the thread-local generator.
    pub fn new() -> (s: Self)
        ensures
            exists|seed: u64| s.rng == seeded_generator(seed),
    {
        AttackSimulator { rng: Mt64::new(fresh_seed()) }
    }

    /// A simulator whose generator is seeded with `seed`, so that runs can be
    /// repeated.
    pub fn new_with_seed(seed: u64) -> (s: Self)
        ensures
            s.rng == seeded_generator(seed),
    {
        AttackSimulator { rng: Mt64::new(seed) }
    }

    /// Clamps the shares, hands out the rest of `split.leftover` one unit at a
    /// time to random targets, then adds the flag bonus to every target.
    /// `None` where the `i32` arithmetic of this overflows.
    fn complete_allocation(&mut self, split: FlagSplit, shares: &Vec<i32>) -> (r: Option<Vec<i32>>)
        requires
            shares.len() > 0 || split.leftover <= 0,
        ensures
            r is Some <==> allocation_fits(old(self).rng, shares@, split),
            r matches Some(alloc) ==> {
                &&& alloc@ == drawn_allocation(old(self).rng, shares@, split)
                &&& final(self).rng == spread_shares(old(self).rng, shares@, split).1
                &&& is_allocation(alloc@, shares@, split)
            },
    {
        let ghost start = self.rng;
        let n = shares.len();
        let leftover = split.leftover;
        let bonus = split.bonus;
        let ghost c = clamped_shares(shares@, leftover);
        let ghost s = spread_shares(start, shares@, split).0;
        let mut out = clamp_shares(shares, leftover);
        let mut sum: i128 = 0;
        for i in 0..n
            invariant
                n == shares.len(),
                out@ == c,
                c.len() == n,
                sum == total(c.take(i as int)),
                -(i as int) * 0x8000_0000 <= sum <= (i as int) * 0x8000_0000,
                n <= usize::MAX,
        {
            let v = out[i];
            proof {
                lemma_total_push(c.take(i as int), v);
                assert(c.take(i + 1) =~= c.take(i as int).push(v));
            }
            sum = sum + v as i128;
        }
        assert(c.take(n as int) =~= c);
        if sum < i32::MIN as i128 || sum > i32::MAX as i128 {
            return None;
        }
        let rest: i128 = if (leftover as i128) - sum > 0 { (leftover as i128) - sum } else { 0 };
        assert(rest == undistributed(shares@, leftover));
        proof {
            lemma_spread_grows(start, as_ints(c), rest as nat);
        }
        let mut cache: i128 = rest;
        while cache > 0
            invariant
                n == shares.len(),
                n > 0 || cache <= 0,
                out.len() == n,
                leftover == split.leftover,
                bonus == split.bonus,
                c == clamped_shares(shares@, leftover),
                rest == undistributed(shares@, leftover),
                i32::MIN <= total(c) <= i32::MAX,
                0 <= cache <= rest,
                total(out@) == total(c) + (rest - cache),
                forall|j: int| 0 <= j < n ==> c[j] <= #[trigger] out@[j],
                spread_units(self.rng, as_ints(out@), cache as nat) == spread_shares(
                    start,
                    shares@,
                    split,
                ),
                s == spread_shares(start, shares@, split).0,
                start == old(self).rng,
            decreases cache,
        {
            let ghost before = self.rng;
            let ghost cur = as_ints(out@);
            let idx = pick_target(&mut self.rng, n);
            let v = out[idx];
            assert(cur.len() as usize == n);
            if v == i32::MAX {
                proof {
                    let next = cur.update(idx as int, cur[idx as int] + 1);
                    lemma_spread_grows(self.rng, next, (cache - 1) as nat);
                    assert(spread_units(before, cur, cache as nat) == spread_units(
                        self.rng,
                        next,
                        (cache - 1) as nat,
                    ));
                    assert(s[idx as int] >= next[idx as int]);
                    assert(!allocation_fits(start, shares@, split));
                }
                return None;
            }
            proof {
                lemma_total_update(out@, idx as int, (v + 1) as i32);
            }
            out.set(idx, v + 1);
            proof {
                assert(as_ints(out@) =~= cur.update(idx as int, cur[idx as int] + 1));
            }
            cache = cache - 1;
        }
        assert(cache == 0);
        assert(as_ints(out@) == s);
        assert(forall|j: int| 0 <= j < n ==> i32::MIN <= #[trigger] s[j] <= i32::MAX) by {
            assert forall|j: int| 0 <= j < n implies i32::MIN <= #[trigger] s[j] <= i32::MAX by {
                assert(s[j] == out@[j] as int);
            }
        }
        assert(total(out@) == total(c) + rest + 0 * bonus);
        for i in 0..n
            invariant
                n == shares.len(),
                out.len() == n,
                leftover == split.leftover,
                bonus == split.bonus,
                c == clamped_shares(shares@, leftover),
                rest == undistributed(shares@, leftover),
                i32::MIN <= total(c) <= i32::MAX,
                total(out@) == total(c) + rest + i * bonus,
                s.len() == n,
                s == spread_shares(start, shares@, split).0,
                start == old(self).rng,
                forall|j: int| 0 <= j < n ==> i32::MIN <= #[trigger] s[j] <= i32::MAX,
                forall|j: int| i <= j < n ==> c[j] <= #[trigger] out@[j],
                forall|j: int| 0 <= j < i ==> c[j] + bonus <= #[trigger] out@[j],
                forall|j: int| i <= j < n ==> #[trigger] out@[j] == s[j],
                forall|j: int| 0 <= j < i ==> #[trigger] out@[j] == s[j] + bonus,
        {
            let v = out[i];
            if (v as i64) + (bonus as i64) > i32::MAX as i64 || (v as i64) + (bonus as i64)
                < i32::MIN as i64 {
                assert(!allocation_fits(start, shares@, split));
                return None;
            }
            proof {
                lemma_total_update(out@, i as int, (v + bonus) as i32);
                assert((i + 1) * bonus == i * bonus + bonus) by (nonlinear_arith);
            }
            out.set(i, v + bonus);
        }
        assert(out@ =~= drawn_allocation(start, shares@, split));
        assert forall|j: int| 0 <= j < s.len() implies #[trigger] s[j] <= i32::MAX && i32::MIN
            <= s[j] + split.bonus <= i32::MAX by {
            assert(out@[j] == s[j] + bonus);
        }
        assert(allocation_fits(start, shares@, split));
        Some(out)
    }

    /// Spreads the attack once the flags are accounted for. When nothing is
    /// left to spread (`split.leftover <= 0`), every one of the `targets`
    /// receives exactly the flag bonus. Otherwise `shares` holds the
    /// proportional share of each target, rounded, and the allocation is
    /// completed with the simulator's generator; `None` where its `i32`
    /// arithmetic overflows. Nothing is drawn when nothing is left to spread.
    pub fn distribute(&mut self, split: FlagSplit, targets: usize, shares: &Vec<i32>) -> (r: Option<Vec<i32>>)
        requires
            split.leftover > 0 ==> targets > 0 && shares.len() == targets,
        ensures
            split.leftover <= 0 ==> (r matches Some(alloc) && alloc@ == Seq::new(
                targets as nat,
                |_i: int| split.bonus,
            )),
            split.leftover <= 0 ==> *final(self) == *old(self),
            split.leftover > 0 ==> (r is Some <==> allocation_fits(old(self).rng, shares@, split)),
            split.leftover > 0 ==> (r matches Some(alloc) ==> {
                &&& alloc@ == drawn_allocation(old(self).rng, shares@, split)
                &&& final(self).rng == spread_shares(old(self).rng, shares@, split).1
                &&& is_allocation(alloc@, shares@, split)
            }),
    {
        if split.leftover <= 0 {
            let mut out: Vec<i32> = Vec::new();
            for i in 0..targets
                invariant
                    out@ =~= Seq::new(i as nat, |_i: int| split.bonus),
            {
                out.push(split.bonus);
            }
            Some(out)
        } else {
            self.complete_allocation(split, shares)
        }
    }
}

} // verus!
