use vstd::prelude::*;

verus! {

/// How candidate pairs of segments are found while splitting.
#[derive(Clone, Copy, Debug, PartialEq, Eq, Structural)]
pub enum Strategy {
    /// Compare every pair of segments whose extents meet.
    List,
    /// Index the segments in an interval tree over their vertical extent.
    Tree,
    /// Sort the segments into the columns of a grid.
    Frag,
    /// Choose by the number of segments.
    Auto,
}

/// Settings of the parallel mode.
#[derive(Clone, Copy, Debug, PartialEq, Eq, Structural)]
pub struct MultithreadOptions {
    /// The least number of items for which sorting may run in parallel.
    pub par_sort_min_size: usize,
}

/// How fast the snap radius grows: in pass `i` it is two to the power
/// `start + i * progression`, capped.
#[derive(Clone, Copy, Debug, PartialEq, Eq, Structural)]
pub struct Precision {
    pub start: usize,
    pub progression: usize,
}

/// The settings of the split solver.
#[derive(Clone, Copy, Debug, PartialEq, Eq, Structural)]
pub struct Solver {
    pub strategy: Strategy,
    pub precision: Precision,
    pub multithreading: Option<MultithreadOptions>,
}

/// Two to the power `e`.
pub open spec fn pow2(e: nat) -> int
    decreases e,
{
    if e == 0 {
        1
    } else {
        2 * pow2((e - 1) as nat)
    }
}

/// Powers of two grow with the exponent.
pub proof fn lemma_pow2_monotonic(a: nat, b: nat)
    requires
        a <= b,
    ensures
        1 <= pow2(a) <= pow2(b),
    decreases b,
{
    if b > 0 {
        if a == b {
            lemma_pow2_monotonic((a - 1) as nat, (b - 1) as nat);
        } else {
            lemma_pow2_monotonic(a, (b - 1) as nat);
        }
    }
}

/// The greatest exponent of a snap radius.
pub const MAX_RADIUS_POWER: usize = 20;

/// The greatest number of segments that the automatic strategy still
/// compares pair by pair.
pub const MAX_SPLIT_LIST_COUNT: usize = 4000;

impl Solver {
    /// Pairwise comparison, single threaded.
    pub fn list() -> (r: Solver)
        ensures
            r == Self::spec_with_strategy(Strategy::List),
    {
        Solver {
            strategy: Strategy::List,
            precision: Precision { start: 0, progression: 1 },
            multithreading: None,
        }
    }

    /// The interval tree, single threaded.
    pub fn tree() -> (r: Solver)
        ensures
            r == Self::spec_with_strategy(Strategy::Tree),
    {
        Solver {
            strategy: Strategy::Tree,
            precision: Precision { start: 0, progression: 1 },
            multithreading: None,
        }
    }

    /// The grid of columns, single threaded.
    pub fn frag() -> (r: Solver)
        ensures
            r == Self::spec_with_strategy(Strategy::Frag),
    {
        Solver {
            strategy: Strategy::Frag,
            precision: Precision { start: 0, progression: 1 },
            multithreading: None,
        }
    }

    /// The strategy chosen by the number of segments, with the parallel mode
    /// switched on.
    pub fn auto() -> (r: Solver)
        ensures
            r == Self::spec_auto(),
    {
        Solver {
            strategy: Strategy::Auto,
            precision: Precision { start: 0, progression: 1 },
            multithreading: Some(MultithreadOptions { par_sort_min_size: 32768 }),
        }
    }

    /// The settings with the given strategy, a radius that doubles with each
    /// pass, and the parallel mode switched off.
    pub open spec fn spec_with_strategy(strategy: Strategy) -> Solver {
        Solver { strategy, precision: Precision { start: 0, progression: 1 }, multithreading: None }
    }

    /// The automatic settings.
    pub open spec fn spec_auto() -> Solver {
        Solver {
            strategy: Strategy::Auto,
            precision: Precision { start: 0, progression: 1 },
            multithreading: Some(MultithreadOptions { par_sort_min_size: 32768 }),
        }
    }

    /// The exponent of the snap radius of pass `iteration`.
    pub open spec fn spec_radius_power(self, iteration: usize) -> nat {
        let e = self.precision.start + iteration * self.precision.progression;
        if e < MAX_RADIUS_POWER {
            e as nat
        } else {
            MAX_RADIUS_POWER as nat
        }
    }

    /// The snap radius of pass `iteration`.
    pub open spec fn spec_radius(self, iteration: usize) -> int {
        pow2(self.spec_radius_power(iteration))
    }

    /// The snap radius of pass `iteration`: a power of two that never
    /// decreases from one pass to the next.
    pub fn radius(&self, iteration: usize) -> (r: i64)
        ensures
            r == self.spec_radius(iteration),
            1 <= r <= 0x10_0000,
    {
        let step: usize = match iteration.checked_mul(self.precision.progression) {
            Some(v) => v,
            None => MAX_RADIUS_POWER,
        };
        let sum: usize = match self.precision.start.checked_add(step) {
            Some(v) => v,
            None => MAX_RADIUS_POWER,
        };
        let e: usize = if sum < MAX_RADIUS_POWER {
            sum
        } else {
            MAX_RADIUS_POWER
        };
        assert(e == self.spec_radius_power(iteration)) by (nonlinear_arith)
            requires
                e == (if sum < MAX_RADIUS_POWER {
                    sum
                } else {
                    MAX_RADIUS_POWER
                }),
                MAX_RADIUS_POWER == 20,
                iteration * self.precision.progression <= usize::MAX ==> step == iteration
                    * self.precision.progression,
                iteration * self.precision.progression > usize::MAX ==> step == 20,
                self.precision.start + step <= usize::MAX ==> sum == self.precision.start + step,
                self.precision.start + step > usize::MAX ==> sum == 20,
                self.spec_radius_power(iteration) == (if self.precision.start + iteration
                    * self.precision.progression < 20 {
                    (self.precision.start + iteration * self.precision.progression) as nat
                } else {
                    20nat
                }),
                usize::MAX >= 0xffff_ffff,
        ;
        let mut r: i64 = 1;
        let mut k: usize = 0;
        while k < e
            invariant
                k <= e <= 20,
                r == pow2(k as nat),
                1 <= r,
                r <= 0x10_0000,
            decreases e - k,
        {
            proof {
                lemma_pow2_monotonic((k + 1) as nat, 20);
                lemma_pow2_20();
            }
            r = r * 2;
            k += 1;
        }
        r
    }

    /// Whether segments that many are compared pair by pair.
    pub open spec fn spec_is_list_split(self, count: usize) -> bool {
        match self.strategy {
            Strategy::List => true,
            Strategy::Tree => false,
            Strategy::Frag => false,
            Strategy::Auto => count < MAX_SPLIT_LIST_COUNT,
        }
    }

    /// Whether segments that many are compared pair by pair.
    pub fn is_list_split(&self, count: usize) -> (r: bool)
        ensures
            r == self.spec_is_list_split(count),
    {
        match self.strategy {
            Strategy::List => true,
            Strategy::Tree => false,
            Strategy::Frag => false,
            Strategy::Auto => count < MAX_SPLIT_LIST_COUNT,
        }
    }
}

/// Two to the power twenty.
pub proof fn lemma_pow2_20()
    ensures
        pow2(20) == 0x10_0000,
{
    reveal_with_fuel(pow2, 21);
}

/// The snap radius never decreases from one pass to the next.
pub proof fn lemma_radius_monotonic(solver: Solver, i: usize, j: usize)
    requires
        i <= j,
    ensures
        solver.spec_radius(i) <= solver.spec_radius(j),
{
    assert(i * solver.precision.progression <= j * solver.precision.progression) by (nonlinear_arith)
        requires
            i <= j,
            solver.precision.progression >= 0,
    ;
    lemma_pow2_monotonic(solver.spec_radius_power(i), solver.spec_radius_power(j));
}

impl Default for Solver {
    fn default() -> (r: Solver)
        ensures
            r == Solver::spec_auto(),
    {
        Solver::auto()
    }
}

} // verus!
