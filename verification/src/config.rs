//! Chain specification values: which consensus engine runs, and the chain's
//! protocol parameters.

use vstd::prelude::*;

verus! {

/// A 256-bit specification integer, modelled by its low 64 bits.
#[derive(Clone, Copy, Debug, PartialEq, Eq, Structural)]
pub struct Uint(pub u64);

/// Parameters of the single-authority engine.
#[derive(Clone, Debug, PartialEq, Eq)]
pub struct SoloAuthority {
    pub duration_limit: Uint,
    pub validators: Vec<u64>,
}

/// Parameters of the Tendermint-style engine.
#[derive(Clone, Debug, PartialEq, Eq)]
pub struct Tendermint {
    pub validators: Vec<u64>,
}

/// Engine selection of a chain specification.
#[derive(Clone, Debug, PartialEq, Eq)]
pub enum Engine {
    Solo,
    SoloAuthority(SoloAuthority),
    Tendermint(Tendermint),
}

/// Chain parameters of a specification.
#[derive(Clone, Copy, Debug, PartialEq, Eq, Structural)]
pub struct Params {
    /// Account start nonce, defaults to 0.
    pub account_start_nonce: Option<Uint>,
    /// Network id.
    pub network_id: Uint,
    /// Minimum transaction cost.
    pub min_transaction_cost: Uint,
}

} // verus!
