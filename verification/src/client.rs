//! The chain-state reader the admission pipeline consumes: account nonce and
//! balance lookup, inclusion lookup by transaction hash, and the chain head.
//!
//! [`MemoryClient`] is a committed-state snapshot held in memory; a node
//! feeds it from its store before each admission batch.

use vstd::prelude::*;

use crate::types::ChainInfo;
use crate::types::Header;

verus! {

/// Read-only account state at the current best block.
pub trait AccountData {
    /// The nonce this reader reports, as a mathematical function.
    spec fn spec_nonce(&self, address: u64) -> u64;

    /// The balance this reader reports, as a mathematical function.
    spec fn spec_balance(&self, address: u64) -> u64;

    /// The account's next expected nonce.
    fn latest_nonce(&self, address: u64) -> (r: u64)
        ensures
            r == self.spec_nonce(address),
    ;

    /// The account's spendable balance.
    fn latest_balance(&self, address: u64) -> (r: u64)
        ensures
            r == self.spec_balance(address),
    ;
}

/// Read-only chain history and head.
pub trait BlockChain {
    /// Whether a transaction with this hash is recorded as executed.
    spec fn spec_includes_transaction(&self, hash: u64) -> bool;

    /// The header of the chain head, as a mathematical function.
    spec fn spec_best_block_header(&self) -> Header;

    /// The number of the chain head, as a mathematical function.
    spec fn spec_best_block_number(&self) -> u64;

    /// The block holding the transaction with this hash, if any.
    fn transaction_block(&self, hash: u64) -> (r: Option<u64>)
        ensures
            r is Some <==> self.spec_includes_transaction(hash),
    ;

    /// The header of the chain head.
    fn best_block_header(&self) -> (h: Header)
        ensures
            h == self.spec_best_block_header(),
    ;

    /// A summary of the chain head.
    fn chain_info(&self) -> (ci: ChainInfo)
        ensures
            ci.best_block_number == self.spec_best_block_number(),
    ;
}

/// One account of a chain-state snapshot.
#[derive(Clone, Copy, Debug, PartialEq, Eq, Structural)]
pub struct Account {
    pub address: u64,
    pub nonce: u64,
    pub balance: u64,
}

/// The first account of `s` at `address`, if any.
pub open spec fn find_account(s: Seq<Account>, address: u64) -> Option<Account>
    decreases s.len(),
{
    if s.len() == 0 {
        None
    } else if s[0].address == address {
        Some(s[0])
    } else {
        find_account(s.drop_first(), address)
    }
}

/// A committed chain-state snapshot held in memory.
pub struct MemoryClient {
    pub accounts: Vec<Account>,
    /// Hashes of transactions already executed in the chain.
    pub included: Vec<u64>,
    pub best_header: Header,
}

impl MemoryClient {
    /// An empty snapshot whose head is the given header.
    pub fn new(best_header: Header) -> (c: MemoryClient)
        ensures
            c.accounts@ == Seq::<Account>::empty(),
            c.included@ == Seq::<u64>::empty(),
            c.best_header == best_header,
    {
        let c = MemoryClient { accounts: Vec::new(), included: Vec::new(), best_header };
        proof {
            assert(c.accounts@ =~= Seq::<Account>::empty());
            assert(c.included@ =~= Seq::<u64>::empty());
        }
        c
    }

    /// The first account at `address`, scanned in snapshot order.
    fn lookup(&self, address: u64) -> (r: Option<Account>)
        ensures
            r == find_account(self.accounts@, address),
    {
        let mut i: usize = 0;
        proof {
            assert(self.accounts@.skip(0) =~= self.accounts@);
        }
        while i < self.accounts.len()
            invariant
                i <= self.accounts@.len(),
                find_account(self.accounts@, address) == find_account(
                    self.accounts@.skip(i as int),
                    address,
                ),
            decreases self.accounts@.len() - i,
        {
            proof {
                assert(self.accounts@.skip(i as int)[0] == self.accounts@[i as int]);
                assert(self.accounts@.skip(i as int).drop_first() =~= self.accounts@.skip(
                    i as int + 1,
                ));
            }
            if self.accounts[i].address == address {
                return Some(self.accounts[i]);
            }
            i += 1;
        }
        proof {
            assert(self.accounts@.skip(self.accounts@.len() as int) =~= Seq::<Account>::empty());
        }
        None
    }
}

impl AccountData for MemoryClient {
    open spec fn spec_nonce(&self, address: u64) -> u64 {
        match find_account(self.accounts@, address) {
            Some(acc) => acc.nonce,
            None => 0,
        }
    }

    open spec fn spec_balance(&self, address: u64) -> u64 {
        match find_account(self.accounts@, address) {
            Some(acc) => acc.balance,
            None => 0,
        }
    }

    fn latest_nonce(&self, address: u64) -> (r: u64) {
        match self.lookup(address) {
            Some(acc) => acc.nonce,
            None => 0,
        }
    }

    fn latest_balance(&self, address: u64) -> (r: u64) {
        match self.lookup(address) {
            Some(acc) => acc.balance,
            None => 0,
        }
    }
}

impl BlockChain for MemoryClient {
    open spec fn spec_includes_transaction(&self, hash: u64) -> bool {
        self.included@.contains(hash)
    }

    open spec fn spec_best_block_header(&self) -> Header {
        self.best_header
    }

    open spec fn spec_best_block_number(&self) -> u64 {
        self.best_header.number
    }

    fn transaction_block(&self, hash: u64) -> (r: Option<u64>) {
        let mut i: usize = 0;
        while i < self.included.len()
            invariant
                i <= self.included@.len(),
                forall|j: int| 0 <= j < i ==> self.included@[j] != hash,
            decreases self.included@.len() - i,
        {
            if self.included[i] == hash {
                return Some(i as u64);
            }
            i += 1;
        }
        proof {
            if self.included@.contains(hash) {
                let j = choose|j: int| 0 <= j < self.included@.len() && self.included@[j] == hash;
                assert(false);
            }
        }
        None
    }

    fn best_block_header(&self) -> (h: Header) {
        self.best_header
    }

    fn chain_info(&self) -> (ci: ChainInfo) {
        ChainInfo { best_block_number: self.best_header.number }
    }
}

} // verus!
