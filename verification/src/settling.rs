//! How long ground is left to settle.

use vstd::prelude::*;

verus! {

/// Which stage of the landscape is settling.
#[derive(Clone, Copy, Debug, PartialEq, Eq, Structural)]
pub enum Settling {
    /// Freshly raised rock, before any water has touched it.
    Bedrock,
    /// Sediment the droplets have just dropped.
    Sediment,
}

impl Settling {
    /// How many sweeps to run. Material moves one cell a sweep, so this is how
    /// far it can travel: the length of a talus fan for bedrock, hardly anywhere
    /// for sediment, which is nearly at rest already.
    pub fn sweeps(self) -> (sweeps: u32)
        ensures
            sweeps == match self {
                Settling::Bedrock => 48u32,
                Settling::Sediment => 10u32,
            },
    {
        match self {
            Settling::Bedrock => 48,
            Settling::Sediment => 10,
        }
    }
}

} // verus!
