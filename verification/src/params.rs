//! Parameters of the crowding simulation that produces the agent transfers.
//!
//! Only the parameter record itself lives here. The crowding cost function
//! scales a passenger count by the capacity below and maps the proportion
//! through a normalized exponential; being floating-point arithmetic, that
//! mapping belongs to the unverified layer around this crate.

use vstd::prelude::*;

verus! {

/// Number of agents a train can carry.
pub type AgentCount = u32;

/// Default simulation parameters: the train capacity that the crowding
/// cost function scales passenger counts by.
#[derive(Clone, Copy, Debug, PartialEq, Eq, Structural)]
pub struct DefaultSimulationParams {
    pub max_train_capacity: AgentCount,
}

impl DefaultSimulationParams {
    /// Creates parameters with the given train capacity.
    pub fn new(max_train_capacity: AgentCount) -> (r: Self)
        ensures
            r.max_train_capacity == max_train_capacity,
    {
        let result = Self { max_train_capacity };
        result
    }
}

} // verus!
