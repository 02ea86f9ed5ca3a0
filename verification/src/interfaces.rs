use vstd::prelude::*;
use crate::chain::block::BlockHash;

verus! {

/// What a component needs to know of the chain's head, for components that
/// are decoupled from consensus.
pub trait ConsensusInterface {
    /// Height of the current head.
    fn get_current_height(&self) -> u64;

    /// Hash of the current head.
    fn get_current_hash(&self) -> BlockHash;
}

/// A virtual machine that runs contract code on arguments.
pub trait VMExecutor {
    /// Run `code` on `args`; the output, or an error.
    fn execute(&self, code: &[u8], args: &[u8]) -> Result<Vec<u8>, String>;
}

} // verus!
