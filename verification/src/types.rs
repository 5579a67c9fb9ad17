//! Plain data carried through the admission pipeline.
//!
//! Addresses, content hashes, fees, balances and signing keys are modelled as
//! `u64` values: the logic of this crate reads only their identity and order.
//! A transaction's `signer` field stands for its signature; the value `0`
//! denotes a missing or invalid signature, any other value identifies the
//! account that signed.

use vstd::prelude::*;

verus! {

/// A transaction whose signature has been checked and whose sender is known.
/// Its identity is the content hash carried in `hash`.
#[derive(Clone, Copy, Debug, PartialEq, Eq, Structural)]
pub struct SignedTransaction {
    pub sender: u64,
    pub nonce: u64,
    pub fee: u64,
    pub hash: u64,
}

/// A transaction as received from the network, before signature recovery.
#[derive(Clone, Debug, PartialEq, Eq)]
pub struct UnverifiedTransaction {
    pub nonce: u64,
    pub fee: u64,
    /// Signature, carrying the signing account: `0` means invalid.
    pub signer: u64,
    /// Content hash, the transaction's identity.
    pub hash: u64,
    pub payload: Vec<u8>,
}

/// Spec-level value of an [`UnverifiedTransaction`].
pub struct TxView {
    pub nonce: u64,
    pub fee: u64,
    pub signer: u64,
    pub hash: u64,
    pub payload: Seq<u8>,
}

impl View for UnverifiedTransaction {
    type V = TxView;

    open spec fn view(&self) -> TxView {
        TxView {
            nonce: self.nonce,
            fee: self.fee,
            signer: self.signer,
            hash: self.hash,
            payload: self.payload@,
        }
    }
}

impl UnverifiedTransaction {
    /// The content hash that identifies this transaction.
    pub fn hash(&self) -> (r: u64)
        ensures
            r == self.hash,
    {
        self.hash
    }
}

impl SignedTransaction {
    /// A locally signed transaction re-entering validation: its signature is
    /// its sender, its payload is not kept.
    pub fn into_unverified(self) -> (r: UnverifiedTransaction)
        ensures
            r@ == (TxView {
                nonce: self.nonce,
                fee: self.fee,
                signer: self.sender,
                hash: self.hash,
                payload: Seq::<u8>::empty(),
            }),
    {
        UnverifiedTransaction {
            nonce: self.nonce,
            fee: self.fee,
            signer: self.sender,
            hash: self.hash,
            payload: Vec::new(),
        }
    }
}

/// Provenance of a pool entry: submitted by this node's operator or received
/// from the network.
#[derive(Clone, Copy, Debug, PartialEq, Eq, Structural)]
pub enum TransactionOrigin {
    Local,
    External,
}

/// Which partition an admitted transaction landed in: `Current` entries are
/// immediately includable, `Future` entries wait behind a nonce gap.
#[derive(Clone, Copy, Debug, PartialEq, Eq, Structural)]
pub enum TransactionImportResult {
    Current,
    Future,
}

/// Rejection reasons of the admission pipeline.
#[derive(Clone, Copy, Debug, PartialEq, Eq, Structural)]
pub enum Error {
    /// The transaction is already in the chain, or held by the pool unchanged.
    AlreadyImported,
    /// A same-(sender, nonce) entry with an equal or higher fee is held.
    TooCheapToReplace,
    /// The pool is full and the transaction does not outrank the cheapest entry.
    LimitReached,
    /// The sender's balance cannot cover its pool-held fees plus this one.
    InsufficientBalance,
    /// The fee is below the pool's floor or the protocol's minimum cost.
    InsufficientFee,
    /// The signature is missing or does not verify.
    InvalidSignature,
    /// The payload exceeds the engine's structural size limit.
    InvalidPayloadSize,
}

/// Current chain state of one account, fetched fresh for each admission.
#[derive(Clone, Copy, Debug, PartialEq, Eq, Structural)]
pub struct AccountDetails {
    pub nonce: u64,
    pub balance: u64,
}

/// The fields of a block header that validation reads.
#[derive(Clone, Copy, Debug, PartialEq, Eq, Structural)]
pub struct Header {
    pub parent_hash: u64,
    pub number: u64,
    pub timestamp: u64,
}

impl Default for Header {
    fn default() -> (r: Header)
        ensures
            r == (Header { parent_hash: 0, number: 0, timestamp: 0 }),
    {
        Header { parent_hash: 0, number: 0, timestamp: 0 }
    }
}

/// Summary of the chain head.
#[derive(Clone, Copy, Debug, PartialEq, Eq, Structural)]
pub struct ChainInfo {
    pub best_block_number: u64,
}

} // verus!
