//! Distances with the two infinities, and the per-node result of a path
//! query.

use vstd::prelude::*;

verus! {

/// Which paths a query looks for.
#[derive(Clone, Copy, Debug, PartialEq, Eq)]
pub enum OptimalPathType {
    Shortest,
    Longest,
}

/// An integer or one of the two infinities, as a mathematical value.
pub enum Extended {
    NegInfinity,
    Finite(int),
    Infinity,
}

/// The distance of a node from the source: the exact sum of the weights
/// along a path, or an infinity where no path has been found.
#[derive(Clone, Copy, Debug, PartialEq, Eq)]
pub enum Distance {
    NegInfinity,
    Finite(i128),
    Infinity,
}

impl View for Distance {
    type V = Extended;

    open spec fn view(&self) -> Extended {
        match *self {
            Distance::NegInfinity => Extended::NegInfinity,
            Distance::Finite(d) => Extended::Finite(d as int),
            Distance::Infinity => Extended::Infinity,
        }
    }
}

/// The result of a path query for one node, as a mathematical value.
pub struct StepView {
    pub distance: Extended,
    pub predecessor: Option<int>,
}

/// The result of a path query for one node: its distance from the source
/// and the node before it on the path found, if any.
#[derive(Clone, Copy, Debug, PartialEq, Eq)]
pub struct Step {
    pub distance: Distance,
    pub predecessor: Option<u64>,
}

impl View for Step {
    type V = StepView;

    open spec fn view(&self) -> StepView {
        StepView {
            distance: self.distance@,
            predecessor: match self.predecessor {
                Some(u) => Some(u as int),
                None => None,
            },
        }
    }
}

/// The views of a sequence of steps.
pub open spec fn step_views(steps: Seq<Step>) -> Seq<StepView> {
    Seq::new(steps.len(), |i: int| steps[i]@)
}

/// The sum of an extended distance and a weight: an infinity stays what it
/// is.
pub open spec fn extended_add(d: Extended, w: int) -> Extended {
    match d {
        Extended::Finite(a) => Extended::Finite(a + w),
        Extended::NegInfinity => Extended::NegInfinity,
        Extended::Infinity => Extended::Infinity,
    }
}

/// The strict order of the extended integers.
pub open spec fn extended_lt(a: Extended, b: Extended) -> bool {
    match (a, b) {
        (Extended::NegInfinity, Extended::NegInfinity) => false,
        (Extended::NegInfinity, _) => true,
        (Extended::Finite(x), Extended::Finite(y)) => x < y,
        (Extended::Finite(_), Extended::Infinity) => true,
        _ => false,
    }
}

/// The distance of a node that no path has reached: the worst value of the
/// mode.
pub open spec fn sentinel(mode: OptimalPathType) -> Extended {
    match mode {
        OptimalPathType::Shortest => Extended::Infinity,
        OptimalPathType::Longest => Extended::NegInfinity,
    }
}

/// `candidate` is strictly better than `current` in the given mode.
pub open spec fn improves(mode: OptimalPathType, candidate: Extended, current: Extended) -> bool {
    match mode {
        OptimalPathType::Shortest => extended_lt(candidate, current),
        OptimalPathType::Longest => extended_lt(current, candidate),
    }
}

/// The length `a` is at least as good as `b` in the given mode.
pub open spec fn no_worse(mode: OptimalPathType, a: int, b: int) -> bool {
    match mode {
        OptimalPathType::Shortest => a <= b,
        OptimalPathType::Longest => a >= b,
    }
}

impl Distance {
    /// The distance after one more edge of the given weight.
    pub fn plus(self, weight: i64) -> (sum: Distance)
        requires
            self matches Distance::Finite(d) ==> i128::MIN <= d + weight <= i128::MAX,
        ensures
            sum@ == extended_add(self@, weight as int),
    {
        match self {
            Distance::Finite(d) => Distance::Finite(d + weight as i128),
            Distance::NegInfinity => Distance::NegInfinity,
            Distance::Infinity => Distance::Infinity,
        }
    }

    /// Whether `self` is strictly less than `other`.
    pub fn less_than(self, other: Distance) -> (less: bool)
        ensures
            less == extended_lt(self@, other@),
    {
        match (self, other) {
            (Distance::NegInfinity, Distance::NegInfinity) => false,
            (Distance::NegInfinity, _) => true,
            (Distance::Finite(x), Distance::Finite(y)) => x < y,
            (Distance::Finite(_), Distance::Infinity) => true,
            _ => false,
        }
    }
}

} // verus!
