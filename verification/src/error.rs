//! What can go wrong while a model is put together.

use vstd::prelude::*;

verus! {

/// The ways in which building or changing a model fails.
#[derive(Debug, Clone, Copy, PartialEq, Eq)]
pub enum Error {
    /// A record names an entity that was never loaded.
    UnresolvedReference {
        /// The identifier of the record that holds the reference.
        referrer: u128,
        /// The identifier that matches no loaded entity.
        target: u128,
    },
    /// A weight that must lie in `[-1, 1]` does not.
    OutOfRange {
        /// The identifier of the entity that was to hold the value.
        owner: u128,
        /// The offending value, in fixed point.
        found: i64,
    },
    /// Two entities of one kind are known by one identifier.
    DuplicateKey {
        /// The identifier that occurs a second time.
        key: u128,
    },
    /// An agent does not hold a belief at the tick before the one to run,
    /// so that there is nothing for the kernel to go on from.
    MissingActivation {
        /// The identifier of the agent.
        agent: u128,
        /// The tick at which the activation is missing.
        time: u32,
        /// The identifier of the belief.
        belief: u128,
    },
    /// A tick is to be run that has no tick before it.
    TickOutOfRange {
        /// The tick that was to be run.
        time: u32,
    },
    /// There are more entities of one kind than a handle can number.
    Internal,
}

} // verus!
