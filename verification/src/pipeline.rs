//! The order in which the kernels of one tick are dispatched.
//!
//! A tick first detects edges, which seeds the frontier. While the
//! frontier is not empty and the round limit is not reached it runs one
//! round after the other, and it ends by finalising. The caller
//! dispatches what a plan names, reads back whether the frontier is
//! empty, and asks for the next plan.

use vstd::prelude::*;

verus! {

/// What to dispatch next.
#[derive(Debug, Clone, Copy, PartialEq, Eq, Structural)]
pub enum Stage {
    /// Compare the inputs with their former values and seed the
    /// frontier.
    DetectEdges,
    /// Expand, resolve, commit and find the next frontier.
    Round,
    /// Close the tick and write its metrics.
    Finalize,
    /// Nothing: the tick is over.
    Done,
}

/// A stage and the number of rounds that have been run and left events
/// behind.
#[derive(Debug, Clone, Copy, PartialEq, Eq, Structural)]
pub struct Plan {
    pub stage: Stage,
    pub round: u32,
}

/// The plan that follows `plan`, once its stage has been dispatched and
/// the frontier read back.
pub open spec fn plan_after(plan: Plan, frontier_empty: bool, max_rounds: u32) -> Plan {
    match plan.stage {
        Stage::DetectEdges => if !frontier_empty && plan.round < max_rounds {
            Plan { stage: Stage::Round, round: plan.round }
        } else {
            Plan { stage: Stage::Finalize, round: plan.round }
        },
        Stage::Round => if frontier_empty {
            Plan { stage: Stage::Finalize, round: plan.round }
        } else if plan.round + 1 < max_rounds {
            Plan { stage: Stage::Round, round: (plan.round + 1) as u32 }
        } else {
            Plan {
                stage: Stage::Finalize,
                round: if plan.round < max_rounds {
                    (plan.round + 1) as u32
                } else {
                    plan.round
                },
            }
        },
        Stage::Finalize => Plan { stage: Stage::Done, round: plan.round },
        Stage::Done => plan,
    }
}

/// The plan a tick starts with: detect edges, no round run yet.
pub fn first_plan() -> (plan: Plan)
    ensures
        plan == (Plan { stage: Stage::DetectEdges, round: 0 }),
{
    Plan { stage: Stage::DetectEdges, round: 0 }
}

/// Computes [`plan_after`].
pub fn next_plan(plan: Plan, frontier_empty: bool, max_rounds: u32) -> (next: Plan)
    ensures
        next == plan_after(plan, frontier_empty, max_rounds),
{
    match plan.stage {
        Stage::DetectEdges => {
            if !frontier_empty && plan.round < max_rounds {
                Plan { stage: Stage::Round, round: plan.round }
            } else {
                Plan { stage: Stage::Finalize, round: plan.round }
            }
        },
        Stage::Round => {
            if frontier_empty {
                Plan { stage: Stage::Finalize, round: plan.round }
            } else if plan.round < max_rounds && plan.round + 1 < max_rounds {
                Plan { stage: Stage::Round, round: plan.round + 1 }
            } else if plan.round < max_rounds {
                Plan { stage: Stage::Finalize, round: plan.round + 1 }
            } else {
                Plan { stage: Stage::Finalize, round: plan.round }
            }
        },
        Stage::Finalize => Plan { stage: Stage::Done, round: plan.round },
        Stage::Done => plan,
    }
}

/// A tick that is driven by [`next_plan`] from [`first_plan`] never
/// runs more rounds than the limit, and is over after at most
/// `max_rounds + 3` plans.
pub proof fn lemma_plan_progress(plan: Plan, frontier_empty: bool, max_rounds: u32)
    requires
        plan.round <= max_rounds,
        plan.stage == Stage::Round ==> plan.round < max_rounds,
    ensures
        plan_after(plan, frontier_empty, max_rounds).round <= max_rounds,
        plan_after(plan, frontier_empty, max_rounds).stage == Stage::Round ==> plan_after(
            plan,
            frontier_empty,
            max_rounds,
        ).round < max_rounds,
        plan_rank(plan_after(plan, frontier_empty, max_rounds), max_rounds) < plan_rank(
            plan,
            max_rounds,
        ) || plan.stage == Stage::Done,
{
}

/// How many plans can still follow `plan` at most.
pub open spec fn plan_rank(plan: Plan, max_rounds: u32) -> int {
    match plan.stage {
        Stage::DetectEdges => max_rounds - plan.round + 3,
        Stage::Round => max_rounds - plan.round + 2,
        Stage::Finalize => 1,
        Stage::Done => 0,
    }
}

} // verus!
