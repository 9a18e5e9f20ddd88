//! Bookkeeping of the Monte Carlo estimate of an overrun: the strength of
//! each simulated attack, whether it overruns the town, and the count of
//! overruns among the runs.

use vstd::prelude::*;

verus! {

/// Least extra attack that a built reactor brings.
pub const REACTOR_DAMAGE_MIN: i32 = 100;

/// Greatest extra attack that a built reactor brings.
pub const REACTOR_DAMAGE_MAX: i32 = 250;

/// `rand::random_range(low..=high)` on the thread-local generator: a value
/// in `low..=high`. The source panics on an empty range, which `requires`
/// leaves out; which value comes back is left to chance.
#[verifier::external_body]
fn random_inclusive(low: i32, high: i32) -> (r: i32)
    requires
        low <= high,
    ensures
        low <= r <= high,
{
    rand::random_range(low..=high)
}

/// The attack of one simulated night: when the reactor is built, it adds a
/// random amount between 100 and 250 to `attacking`; otherwise the attack is
/// `attacking` itself. `None` when the drawn sum leaves the range of `i32`,
/// which can only happen near `i32::MAX`.
pub fn reactor_attack(attacking: i32, is_reactor_built: Option<bool>) -> (r: Option<i32>)
    ensures
        is_reactor_built != Some(true) ==> r == Some(attacking),
        is_reactor_built == Some(true) ==> (r matches Some(v) ==> attacking + REACTOR_DAMAGE_MIN
            <= v <= attacking + REACTOR_DAMAGE_MAX),
        is_reactor_built == Some(true) && attacking <= i32::MAX - REACTOR_DAMAGE_MAX ==> r is Some,
        is_reactor_built == Some(true) && attacking > i32::MAX - REACTOR_DAMAGE_MIN ==> r is None,
{
    let built = match is_reactor_built {
        Some(b) => b,
        None => false,
    };
    if built {
        let damage = random_inclusive(REACTOR_DAMAGE_MIN, REACTOR_DAMAGE_MAX);
        if attacking as i64 + damage as i64 > i32::MAX as i64 {
            None
        } else {
            Some(attacking + damage)
        }
    } else {
        Some(attacking)
    }
}

/// Some target of `alloc` is hit harder than `threshold`.
pub open spec fn overruns(alloc: Seq<i32>, threshold: i32) -> bool {
    exists|i: int| 0 <= i < alloc.len() && alloc[i] > threshold
}

/// A run overruns as soon as any target, at any position, is hit harder
/// than `threshold`.
pub proof fn lemma_any_target_above_overruns(alloc: Seq<i32>, threshold: i32, i: int)
    requires
        0 <= i < alloc.len(),
        alloc[i] > threshold,
    ensures
        overruns(alloc, threshold),
{
}

/// A run whose targets are all hit at most `threshold` does not overrun.
pub proof fn lemma_all_targets_within_no_overrun(alloc: Seq<i32>, threshold: i32)
    requires
        forall|i: int| 0 <= i < alloc.len() ==> alloc[i] <= threshold,
    ensures
        !overruns(alloc, threshold),
{
}

/// Whether some target receives more attack than `threshold`.
pub fn exceeds_threshold(alloc: &Vec<i32>, threshold: i32) -> (r: bool)
    ensures
        r == overruns(alloc@, threshold),
{
    let n = alloc.len();
    for i in 0..n
        invariant
            n == alloc.len(),
            forall|j: int| 0 <= j < i ==> alloc@[j] <= threshold,
    {
        if alloc[i] > threshold {
            return true;
        }
    }
    false
}

/// Counts the runs of a Monte Carlo estimate and the runs that overran.
pub struct OverflowTally {
    iterations: u32,
    done: u32,
    hits: u32,
}

impl OverflowTally {
    #[verifier::type_invariant]
    spec fn counts_are_ordered(self) -> bool {
        self.hits <= self.done <= self.iterations
    }

    /// Number of runs planned.
    pub closed spec fn planned(self) -> nat {
        self.iterations as nat
    }

    /// Number of runs recorded so far.
    pub closed spec fn recorded(self) -> nat {
        self.done as nat
    }

    /// Number of recorded runs that overran.
    pub closed spec fn overruns_seen(self) -> nat {
        self.hits as nat
    }

    /// A tally of `iterations` runs, none recorded yet.
    pub fn new(iterations: u32) -> (t: Self)
        ensures
            t.planned() == iterations,
            t.recorded() == 0,
            t.overruns_seen() == 0,
    {
        OverflowTally { iterations, done: 0, hits: 0 }
    }

    /// Whether every planned run has been recorded.
    pub fn is_finished(&self) -> (r: bool)
        ensures
            r == (self.recorded() == self.planned()),
    {
        self.done == self.iterations
    }

    /// Records one run whose targets received `alloc`: it counts as an
    /// overrun when some target is hit harder than `threshold`.
    pub fn record(&mut self, alloc: &Vec<i32>, threshold: i32)
        requires
            old(self).recorded() < old(self).planned(),
        ensures
            final(self).planned() == old(self).planned(),
            final(self).recorded() == old(self).recorded() + 1,
            final(self).overruns_seen() == old(self).overruns_seen() + if overruns(
                alloc@,
                threshold,
            ) {
                1int
            } else {
                0int
            },
    {
        proof {
            use_type_invariant(&*self);
        }
        let hit = exceeds_threshold(alloc, threshold);
        self.done = self.done + 1;
        if hit {
            self.hits = self.hits + 1;
        }
    }

    /// Number of runs planned.
    pub fn iterations(&self) -> (n: u32)
        ensures
            n == self.planned(),
    {
        self.iterations
    }

    /// Number of recorded runs that overran; never more than the planned runs.
    pub fn hits(&self) -> (n: u32)
        ensures
            n == self.overruns_seen(),
            n <= self.recorded() <= self.planned(),
    {
        proof {
            use_type_invariant(self);
        }
        self.hits
    }
}

} // verus!
