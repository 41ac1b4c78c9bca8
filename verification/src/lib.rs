//! A verified core for a two-stage surgery scheduler.
//!
//! Stage one packs each surgeon's patients into operating days under the
//! surgeon's daily time budget, either by a recursive day-forward bumping
//! strategy or by rounding a linear-programming relaxation.  Stage two packs
//! the patients fixed to a day into operating theaters.  The continuous LP
//! solving itself is left to an unverified driver; everything the scheduler
//! decides on integer data (problem construction, rounding, repair, and the
//! resulting capacity and placement invariants) is verified here.

use vstd::prelude::*;

pub mod assignment;
pub mod dynamic;
pub mod instance;
pub mod laws;
pub mod lp;
pub mod model;
pub mod prelim;
pub mod rng;
pub mod rounding;
pub mod theater;

verus! {

/// The scheduler's error taxonomy.  Infeasibility errors carry the offending
/// day or patient index; solver errors carry the surgeon whose subproblem
/// failed.
#[derive(Debug, Clone, Copy, PartialEq, Eq, Structural)]
pub enum ScheduleError {
    /// A day's lists cannot be brought under its capacity by bumping.
    CapacityUnreachable(usize),
    /// A mandatory patient could not be placed on any admissible day.
    MandatoryUnassignable(usize),
    /// Every bumping attempt for a day failed.
    AllAttemptsFailed(usize),
    /// The external LP solver failed on a surgeon's subproblem.
    SolveFailed(usize),
    /// The theater LP for a day is infeasible.
    LpInfeasible(usize),
    /// Rounding the theater LP for a day exceeded a theater's availability.
    RoundingInfeasible(usize),
}

} // verus!
