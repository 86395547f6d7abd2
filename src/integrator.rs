use vstd::prelude::*;

verus! {

/// What tracing one ray found: nothing (the sky), a surface whose material
/// absorbed the ray, or a surface that scattered it.
#[derive(Clone, Copy, Debug, PartialEq, Eq, Structural)]
pub enum Outcome {
    Miss,
    Absorbed,
    Scattered,
}

/// What the integrator does next: end the path black, end it with the sky
/// gradient, or trace a ray with the given number of bounces left
/// (including that one).
#[derive(Clone, Copy, Debug, PartialEq, Eq, Structural)]
pub enum Step {
    Black,
    Sky,
    Trace(usize),
}

pub open spec fn spec_start(budget: nat) -> Step {
    if budget == 0 {
        Step::Black
    } else {
        Step::Trace(budget as usize)
    }
}

/// The first step of a path with `budget` bounces: with none left the path
/// is black and nothing is traced.
pub fn start(budget: usize) -> (r: Step)
    ensures
        r == spec_start(budget as nat),
        budget == 0 ==> r == Step::Black,
{
    if budget == 0 {
        Step::Black
    } else {
        Step::Trace(budget)
    }
}

pub open spec fn spec_resolve(remaining: nat, outcome: Outcome) -> Step {
    match outcome {
        Outcome::Miss => Step::Sky,
        Outcome::Absorbed => Step::Black,
        Outcome::Scattered => spec_start((remaining - 1) as nat),
    }
}

/// The step after tracing a ray with `remaining` bounces left: a miss ends
/// with the sky, an absorbed ray ends black, and a scattered ray goes on
/// with one bounce fewer, which is black once the budget is spent.
pub fn resolve(remaining: usize, outcome: Outcome) -> (r: Step)
    requires
        remaining >= 1,
    ensures
        r == spec_resolve(remaining as nat, outcome),
{
    match outcome {
        Outcome::Miss => Step::Sky,
        Outcome::Absorbed => Step::Black,
        Outcome::Scattered => start(remaining - 1),
    }
}

/// How a path with `budget` bounces ends when its traced rays meet
/// `outcomes` in turn, and how many rays it traces. A path that needs more
/// outcomes than given ends black.
pub open spec fn path_end(budget: nat, outcomes: Seq<Outcome>) -> (Step, nat)
    decreases outcomes.len(),
{
    match spec_start(budget) {
        Step::Trace(_) => if outcomes.len() == 0 {
            (Step::Black, 0)
        } else {
            match spec_resolve(budget, outcomes[0]) {
                Step::Trace(_) => {
                    let (end, traced) = path_end((budget - 1) as nat, outcomes.drop_first());
                    (end, traced + 1)
                },
                other => (other, 1),
            }
        },
        other => (other, 0),
    }
}

/// A path with no budget is black and traces nothing, whatever the scene;
/// any path traces at most its budget of rays and ends black or with the sky.
pub proof fn lemma_path_bounded(budget: nat, outcomes: Seq<Outcome>)
    ensures
        budget == 0 ==> path_end(budget, outcomes) == (Step::Black, 0nat),
        path_end(budget, outcomes).1 <= budget,
        path_end(budget, outcomes).0 is Black || path_end(budget, outcomes).0 is Sky,
    decreases outcomes.len(),
{
    if budget > 0 && outcomes.len() > 0 {
        lemma_path_bounded((budget - 1) as nat, outcomes.drop_first());
    }
}

} // verus!
