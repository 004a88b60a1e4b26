//! Running many independent simulations and collecting their outcomes.

use vstd::prelude::*;
use crate::aircraft::Aircraft;
use crate::error::SimError;

verus! {

/// Runs one simulation to completion; the aircraft is consumed.
pub fn run_unit(a: Aircraft, max_ticks: u32) -> (r: Result<u32, SimError>)
    requires
        a@.wf(),
    ensures
        r == a@.run_from(max_ticks as nat, 0).0,
        r matches Ok(n) ==> n <= max_ticks,
        r is Err ==> r == Err::<u32, SimError>(SimError::NonTermination),
{
    let mut a = a;
    a.run_to_completion(max_ticks)
}

/// Runs every aircraft to completion with the same tick bound, each on its
/// own, and returns their outcomes in input order. One that does not finish
/// does not stop the others.
pub fn run_batch(configs: Vec<Aircraft>, max_ticks: u32) -> (r: Vec<Result<u32, SimError>>)
    requires
        forall|i: int| 0 <= i < configs@.len() ==> (#[trigger] configs@[i])@.wf(),
    ensures
        r@.len() == configs@.len(),
        forall|i: int|
            0 <= i < r@.len() ==> {
                &&& (#[trigger] r@[i]) == configs@[i]@.run_from(max_ticks as nat, 0).0
                &&& r@[i] matches Ok(n) ==> n <= max_ticks
                &&& r@[i] is Err ==> r@[i] == Err::<u32, SimError>(SimError::NonTermination)
            },
{
    let ghost start = configs@;
    let mut configs = configs;
    let mut results: Vec<Result<u32, SimError>> = Vec::new();
    let mut k: usize = 0;
    while k < configs.len()
        invariant
            configs@.len() == start.len(),
            k <= configs@.len(),
            results@.len() == k,
            forall|i: int| k <= i < configs@.len() ==> #[trigger] configs@[i] == start[i],
            forall|i: int|
                0 <= i < k ==> {
                    &&& (#[trigger] results@[i]) == start[i]@.run_from(max_ticks as nat, 0).0
                    &&& results@[i] matches Ok(n) ==> n <= max_ticks
                    &&& results@[i] is Err ==> results@[i] == Err::<u32, SimError>(
                        SimError::NonTermination,
                    )
                },
            forall|i: int| 0 <= i < start.len() ==> (#[trigger] start[i])@.wf(),
        decreases configs@.len() - k,
    {
        let outcome = configs[k].run_to_completion(max_ticks);
        results.push(outcome);
        k = k + 1;
    }
    results
}

} // verus!
