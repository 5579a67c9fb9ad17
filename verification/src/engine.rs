//! The consensus engine's validation contract, as the pool consumes it.
//!
//! The closed set of engines is enumerated by [`crate::config::Engine`]; the
//! structural and chain-state checks they share are concrete here. Signature
//! recovery is modelled by the transaction's `signer` field: `0` is an
//! invalid signature, any other value identifies the signing account.

use vstd::prelude::*;

use crate::config::Engine;
use crate::types::Error;
use crate::types::Header;
use crate::types::SignedTransaction;
use crate::types::UnverifiedTransaction;

verus! {

/// The largest payload the structural check admits, in bytes.
pub const MAX_PAYLOAD_SIZE: usize = 1024;

/// Chain-machine rules shared by every engine.
#[derive(Clone, Copy, Debug, PartialEq, Eq, Structural)]
pub struct Machine {
    /// The protocol's fee floor, from the chain parameters.
    pub min_transaction_cost: u64,
}

impl Machine {
    /// Engine- and chain-state-dependent check: the protocol fee floor.
    pub fn verify_transaction(&self, tx: &SignedTransaction, _header: &Header) -> (r: Result<
        (),
        Error,
    >)
        ensures
            r == if tx.fee >= self.min_transaction_cost {
                Ok::<(), Error>(())
            } else {
                Err::<(), Error>(Error::InsufficientFee)
            },
    {
        if tx.fee >= self.min_transaction_cost {
            Ok(())
        } else {
            Err(Error::InsufficientFee)
        }
    }
}

/// A signing identity handed to an internally sealing engine.
#[derive(Clone, Copy, Debug, PartialEq, Eq, Structural)]
pub struct EngineSigner {
    pub address: u64,
    pub private: u64,
}

/// One configured consensus engine with its chain machine and, for engines
/// that seal internally, the signing identity it was handed.
#[derive(Clone, Debug, PartialEq, Eq)]
pub struct CodeChainEngine {
    pub kind: Engine,
    pub machine: Machine,
    pub signer: Option<EngineSigner>,
}

impl CodeChainEngine {
    /// Whether this engine seals blocks itself: `None` for the plain solo
    /// engine, which needs no signer; `Some(true)` for the single authority,
    /// which seals as soon as it can; `Some(false)` for the Tendermint-style
    /// engine, which seals only when its rounds conclude.
    pub open spec fn spec_seals_internally(&self) -> Option<bool> {
        match self.kind {
            Engine::Solo => None,
            Engine::SoloAuthority(_) => Some(true),
            Engine::Tendermint(_) => Some(false),
        }
    }

    /// Whether this engine seals blocks itself.
    pub fn seals_internally(&self) -> (r: Option<bool>)
        ensures
            r == self.spec_seals_internally(),
    {
        match self.kind {
            Engine::Solo => None,
            Engine::SoloAuthority(_) => Some(true),
            Engine::Tendermint(_) => Some(false),
        }
    }

    /// Hand the engine a signing identity.
    pub fn set_signer(&mut self, address: u64, private: u64)
        ensures
            final(self).signer == Some(EngineSigner { address, private }),
            final(self).kind == old(self).kind,
            final(self).machine == old(self).machine,
    {
        self.signer = Some(EngineSigner { address, private });
    }

    /// Stateless structural verification: the payload size limit.
    pub fn verify_transaction_basic(&self, tx: &UnverifiedTransaction, _header: &Header) -> (r:
        Result<(), Error>)
        ensures
            r == if tx@.payload.len() <= MAX_PAYLOAD_SIZE {
                Ok::<(), Error>(())
            } else {
                Err::<(), Error>(Error::InvalidPayloadSize)
            },
    {
        if tx.payload.len() <= MAX_PAYLOAD_SIZE {
            Ok(())
        } else {
            Err(Error::InvalidPayloadSize)
        }
    }

    /// Signature verification and sender recovery, independent of other pool
    /// transactions.
    pub fn verify_transaction_unordered(&self, tx: UnverifiedTransaction, _header: &Header) -> (r:
        Result<SignedTransaction, Error>)
        ensures
            r == if tx@.signer != 0 {
                Ok::<SignedTransaction, Error>(
                    SignedTransaction {
                        sender: tx@.signer,
                        nonce: tx@.nonce,
                        fee: tx@.fee,
                        hash: tx@.hash,
                    },
                )
            } else {
                Err::<SignedTransaction, Error>(Error::InvalidSignature)
            },
    {
        if tx.signer != 0 {
            Ok(
                SignedTransaction {
                    sender: tx.signer,
                    nonce: tx.nonce,
                    fee: tx.fee,
                    hash: tx.hash,
                },
            )
        } else {
            Err(Error::InvalidSignature)
        }
    }

    /// The chain machine this engine runs on.
    pub fn machine(&self) -> (m: &Machine)
        ensures
            *m == self.machine,
    {
        &self.machine
    }
}

} // verus!
