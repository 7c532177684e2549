//! The miner identity used to sign deployments and claims.

use vstd::prelude::*;

verus! {

/// A miner, named by the path of its key file (reading the key is left to
/// the caller).
pub struct SlotMiner {
    pub keypair_filepath: Option<String>,
}

impl SlotMiner {
    /// A miner with the given key file path, if any.
    pub fn new(keypair_filepath: Option<String>) -> (miner: Self)
        ensures
            miner.keypair_filepath == keypair_filepath,
    {
        Self { keypair_filepath }
    }
}

} // verus!
