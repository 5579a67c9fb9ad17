//! Admission orchestration: the sole entry point through which transactions
//! reach the pool, and the owner of the node identity used when building a
//! block candidate.

use vstd::prelude::*;

use crate::client::AccountData;
use crate::client::BlockChain;
use crate::engine::CodeChainEngine;
use crate::engine::MAX_PAYLOAD_SIZE;
use crate::pool;
use crate::pool::PoolEntry;
use crate::pool::TransactionQueue;
use crate::pool::future_pred;
use crate::pool::pending_pred;
use crate::pool::prune_below_fee;
use crate::pool::select_entries;
use crate::types::AccountDetails;
use crate::types::Error;
use crate::types::SignedTransaction;
use crate::types::TransactionImportResult;
use crate::types::TransactionOrigin;
use crate::types::TxView;
use crate::types::UnverifiedTransaction;

verus! {

/// Queue counts as the block-building path reads them. The count of
/// transactions already placed into an in-progress block candidate is
/// tracked by the block builder, not here.
#[derive(Clone, Copy, Debug, PartialEq, Eq, Structural)]
pub struct MinerStatus {
    pub transactions_in_pending_queue: usize,
    pub transactions_in_future_queue: usize,
    pub transactions_in_pending_block: usize,
}

/// Adapter handing the pool an account's nonce and balance, read from a
/// chain-state client.
pub struct TransactionDetailsProvider<'a, C> {
    pub client: &'a C,
}

impl<'a, C> TransactionDetailsProvider<'a, C> {
    /// Wrap a chain-state client.
    pub fn new(client: &'a C) -> (r: Self)
        ensures
            r.client == client,
    {
        TransactionDetailsProvider { client }
    }
}

impl<'a, C: AccountData> pool::TransactionDetailsProvider for TransactionDetailsProvider<'a, C> {
    open spec fn account_details(&self, address: u64) -> AccountDetails {
        AccountDetails {
            nonce: self.client.spec_nonce(address),
            balance: self.client.spec_balance(address),
        }
    }

    fn fetch_account(&self, address: u64) -> (r: AccountDetails) {
        AccountDetails {
            nonce: self.client.latest_nonce(address),
            balance: self.client.latest_balance(address),
        }
    }
}

/// The validation gate's verdict on one transaction, in check order: chain
/// inclusion, structural payload size, signature recovery, protocol fee
/// floor; on success, the signed transaction handed to the pool.
pub open spec fn validate_tx<C: AccountData + BlockChain>(
    client: &C,
    min_cost: u64,
    t: TxView,
) -> Result<SignedTransaction, Error> {
    if client.spec_includes_transaction(t.hash) {
        Err(Error::AlreadyImported)
    } else if t.payload.len() > MAX_PAYLOAD_SIZE {
        Err(Error::InvalidPayloadSize)
    } else if t.signer == 0 {
        Err(Error::InvalidSignature)
    } else if t.fee < min_cost {
        Err(Error::InsufficientFee)
    } else {
        Ok(SignedTransaction { sender: t.signer, nonce: t.nonce, fee: t.fee, hash: t.hash })
    }
}

/// One admission: validation first, then the pool. The result is the
/// transaction's verdict together with the entries and the admission
/// counter after it; a rejection leaves the queue exactly as it stood.
pub open spec fn import_step<C: AccountData + BlockChain>(
    client: &C,
    min_cost: u64,
    origin: TransactionOrigin,
    entries: Seq<PoolEntry>,
    minimal_fee: u64,
    limit: usize,
    next_seq: u64,
    t: TxView,
) -> (Result<TransactionImportResult, Error>, Seq<PoolEntry>, u64) {
    match validate_tx(client, min_cost, t) {
        Err(e) => (Err(e), entries, next_seq),
        Ok(stx) => {
            let d = AccountDetails {
                nonce: client.spec_nonce(stx.sender),
                balance: client.spec_balance(stx.sender),
            };
            let time = client.spec_best_block_number();
            let r = pool::add_decision(entries, minimal_fee, limit, next_seq, time, origin, stx, d);
            (
                r,
                pool::add_entries(entries, minimal_fee, limit, next_seq, time, origin, stx, d),
                if r is Ok {
                    (next_seq + 1) as u64
                } else {
                    next_seq
                },
            )
        },
    }
}

/// Batch admission over the queue model: each transaction validated and
/// admitted against the state its predecessors left, one result per input,
/// in input order.
pub open spec fn import_fold<C: AccountData + BlockChain>(
    client: &C,
    min_cost: u64,
    origin: TransactionOrigin,
    entries: Seq<PoolEntry>,
    minimal_fee: u64,
    limit: usize,
    next_seq: u64,
    txs: Seq<TxView>,
) -> (Seq<Result<TransactionImportResult, Error>>, Seq<PoolEntry>, u64)
    decreases txs.len(),
{
    if txs.len() == 0 {
        (Seq::empty(), entries, next_seq)
    } else {
        let step = import_step(
            client,
            min_cost,
            origin,
            entries,
            minimal_fee,
            limit,
            next_seq,
            txs.first(),
        );
        let rest = import_fold(
            client,
            min_cost,
            origin,
            step.1,
            minimal_fee,
            limit,
            step.2,
            txs.drop_first(),
        );
        (seq![step.0] + rest.0, rest.1, rest.2)
    }
}

/// The admission coordinator: owns the pool, the consensus engine handle and
/// the identity used by block assembly.
pub struct Miner {
    pub transaction_queue: TransactionQueue,
    pub author: u64,
    pub extra_data: Vec<u8>,
    pub engine: CodeChainEngine,
}

impl Miner {
    /// A miner over an empty pool with the given capacity and fee floor.
    pub fn new(engine: CodeChainEngine, limit: usize, minimal_fee: u64) -> (m: Miner)
        ensures
            m.transaction_queue.wf(),
            m.transaction_queue.entries@ == Seq::<PoolEntry>::empty(),
            m.transaction_queue.minimal_fee == minimal_fee,
            m.transaction_queue.limit == limit,
            m.author == 0,
            m.extra_data@ == Seq::<u8>::empty(),
            m.engine == engine,
    {
        let m = Miner {
            transaction_queue: TransactionQueue::new(limit, minimal_fee),
            author: 0,
            extra_data: Vec::new(),
            engine,
        };
        proof {
            assert(m.extra_data@ =~= Seq::<u8>::empty());
        }
        m
    }

    /// Validate each transaction against the chain and the engine, then hand
    /// it to the pool; one result per input, in input order, one input's
    /// failure never touching its siblings.
    fn add_transactions_to_queue<C: AccountData + BlockChain>(
        &mut self,
        client: &C,
        transactions: Vec<UnverifiedTransaction>,
        default_origin: TransactionOrigin,
    ) -> (rs: Vec<Result<TransactionImportResult, Error>>)
        requires
            old(self).transaction_queue.wf(),
            old(self).transaction_queue.next_seq + transactions@.len() <= u64::MAX,
        ensures
            rs@.len() == transactions@.len(),
            forall|i: int|
                0 <= i < rs@.len() && client.spec_includes_transaction(
                    (#[trigger] transactions@[i])@.hash,
                ) ==> rs@[i] == Err::<TransactionImportResult, Error>(Error::AlreadyImported),
            forall|i: int|
                0 <= i < rs@.len() && !client.spec_includes_transaction(transactions@[i]@.hash)
                    && (#[trigger] transactions@[i])@.payload.len() > MAX_PAYLOAD_SIZE ==> rs@[i]
                    == Err::<TransactionImportResult, Error>(Error::InvalidPayloadSize),
            forall|i: int|
                0 <= i < rs@.len() && !client.spec_includes_transaction(transactions@[i]@.hash)
                    && transactions@[i]@.payload.len() <= MAX_PAYLOAD_SIZE
                    && (#[trigger] transactions@[i])@.signer == 0 ==> rs@[i] == Err::<
                    TransactionImportResult,
                    Error,
                >(Error::InvalidSignature),
            forall|i: int|
                0 <= i < rs@.len() && !client.spec_includes_transaction(transactions@[i]@.hash)
                    && transactions@[i]@.payload.len() <= MAX_PAYLOAD_SIZE
                    && transactions@[i]@.signer != 0 && (#[trigger] transactions@[i])@.fee
                    < old(self).engine.machine.min_transaction_cost ==> rs@[i] == Err::<
                    TransactionImportResult,
                    Error,
                >(Error::InsufficientFee),
            final(self).transaction_queue.wf(),
            final(self).transaction_queue.minimal_fee == old(self).transaction_queue.minimal_fee,
            final(self).transaction_queue.limit == old(self).transaction_queue.limit,
            final(self).transaction_queue.next_seq <= old(self).transaction_queue.next_seq
                + transactions@.len(),
            final(self).author == old(self).author,
            final(self).extra_data == old(self).extra_data,
            final(self).engine == old(self).engine,
            ({
                let folded = import_fold(
                    client,
                    old(self).engine.machine.min_transaction_cost,
                    default_origin,
                    old(self).transaction_queue.entries@,
                    old(self).transaction_queue.minimal_fee,
                    old(self).transaction_queue.limit,
                    old(self).transaction_queue.next_seq,
                    transactions@.map_values(|t: UnverifiedTransaction| t@),
                );
                &&& rs@ == folded.0
                &&& final(self).transaction_queue.entries@ == folded.1
                &&& final(self).transaction_queue.next_seq == folded.2
            }),
    {
        let ghost t0 = transactions@;
        let ghost tv = t0.map_values(|t: UnverifiedTransaction| t@);
        let ghost mc = old(self).engine.machine.min_transaction_cost;
        let ghost q0 = old(self).transaction_queue;
        let best_block_header = client.best_block_header();
        let insertion_time = client.chain_info().best_block_number;
        let mut transactions = transactions;
        let mut results: Vec<Result<TransactionImportResult, Error>> = Vec::new();
        proof {
            assert(tv.skip(0) =~= tv);
            let full = import_fold(
                client,
                mc,
                default_origin,
                q0.entries@,
                q0.minimal_fee,
                q0.limit,
                q0.next_seq,
                tv,
            );
            assert(results@ + full.0 =~= full.0);
        }
        while transactions.len() > 0
            invariant
                results@.len() + transactions@.len() == t0.len(),
                transactions@ == t0.skip(results@.len() as int),
                self.transaction_queue.wf(),
                self.transaction_queue.minimal_fee == old(self).transaction_queue.minimal_fee,
                self.transaction_queue.limit == old(self).transaction_queue.limit,
                self.transaction_queue.next_seq <= old(self).transaction_queue.next_seq
                    + results@.len(),
                old(self).transaction_queue.next_seq + t0.len() <= u64::MAX,
                self.author == old(self).author,
                self.extra_data == old(self).extra_data,
                self.engine == old(self).engine,
                tv == t0.map_values(|t: UnverifiedTransaction| t@),
                mc == old(self).engine.machine.min_transaction_cost,
                q0 == old(self).transaction_queue,
                insertion_time == client.spec_best_block_number(),
                ({
                    let full = import_fold(
                        client,
                        mc,
                        default_origin,
                        q0.entries@,
                        q0.minimal_fee,
                        q0.limit,
                        q0.next_seq,
                        tv,
                    );
                    let remaining = import_fold(
                        client,
                        mc,
                        default_origin,
                        self.transaction_queue.entries@,
                        q0.minimal_fee,
                        q0.limit,
                        self.transaction_queue.next_seq,
                        tv.skip(results@.len() as int),
                    );
                    &&& full.0 == results@ + remaining.0
                    &&& full.1 == remaining.1
                    &&& full.2 == remaining.2
                }),
                forall|i: int|
                    0 <= i < results@.len() && client.spec_includes_transaction(
                        (#[trigger] t0[i])@.hash,
                    ) ==> results@[i] == Err::<TransactionImportResult, Error>(
                        Error::AlreadyImported,
                    ),
                forall|i: int|
                    0 <= i < results@.len() && !client.spec_includes_transaction(t0[i]@.hash)
                        && (#[trigger] t0[i])@.payload.len() > MAX_PAYLOAD_SIZE ==> results@[i]
                        == Err::<TransactionImportResult, Error>(Error::InvalidPayloadSize),
                forall|i: int|
                    0 <= i < results@.len() && !client.spec_includes_transaction(t0[i]@.hash)
                        && t0[i]@.payload.len() <= MAX_PAYLOAD_SIZE && (#[trigger] t0[i])@.signer
                        == 0 ==> results@[i] == Err::<TransactionImportResult, Error>(
                        Error::InvalidSignature,
                    ),
                forall|i: int|
                    0 <= i < results@.len() && !client.spec_includes_transaction(t0[i]@.hash)
                        && t0[i]@.payload.len() <= MAX_PAYLOAD_SIZE && t0[i]@.signer != 0
                        && (#[trigger] t0[i])@.fee < self.engine.machine.min_transaction_cost
                        ==> results@[i] == Err::<TransactionImportResult, Error>(
                        Error::InsufficientFee,
                    ),
            decreases transactions@.len(),
        {
            let ghost k = results@.len() as int;
            let ghost entries_k = self.transaction_queue.entries@;
            let ghost seq_k = self.transaction_queue.next_seq;
            let ghost results_k = results@;
            proof {
                assert(transactions@[0] == t0.skip(k)[0]);
                assert(t0.skip(k)[0] == t0[k]);
                assert(tv[k] == t0[k]@);
            }
            let tx = transactions.remove(0);
            proof {
                assert(transactions@ =~= t0.skip(k + 1));
            }
            let hash = tx.hash();
            let r: Result<TransactionImportResult, Error> = if client.transaction_block(
                hash,
            ).is_some() {
                Err(Error::AlreadyImported)
            } else {
                match self.engine.verify_transaction_basic(&tx, &best_block_header) {
                    Err(e) => Err(e),
                    Ok(()) => {
                        match self.engine.verify_transaction_unordered(tx, &best_block_header) {
                            Err(e) => Err(e),
                            Ok(transaction) => {
                                match self.engine.machine().verify_transaction(
                                    &transaction,
                                    &best_block_header,
                                ) {
                                    Err(e) => Err(e),
                                    Ok(()) => {
                                        let details_provider = TransactionDetailsProvider::new(
                                            client,
                                        );
                                        self.transaction_queue.add(
                                            transaction,
                                            default_origin,
                                            insertion_time,
                                            &details_provider,
                                        )
                                    },
                                }
                            },
                        }
                    },
                }
            };
            proof {
                let step = import_step(
                    client,
                    mc,
                    default_origin,
                    entries_k,
                    q0.minimal_fee,
                    q0.limit,
                    seq_k,
                    tv[k],
                );
                assert(r == step.0);
                assert(self.transaction_queue.entries@ == step.1);
                assert(self.transaction_queue.next_seq == step.2);
                let suffix = tv.skip(k);
                assert(suffix.first() == tv[k]);
                assert(suffix.drop_first() =~= tv.skip(k + 1));
                let rest = import_fold(
                    client,
                    mc,
                    default_origin,
                    step.1,
                    q0.minimal_fee,
                    q0.limit,
                    step.2,
                    tv.skip(k + 1),
                );
                assert(import_fold(
                    client,
                    mc,
                    default_origin,
                    entries_k,
                    q0.minimal_fee,
                    q0.limit,
                    seq_k,
                    suffix,
                ).0 == seq![r] + rest.0);
                assert(results_k + (seq![r] + rest.0) =~= (results_k + seq![r]) + rest.0);
            }
            results.push(r);
        }
        proof {
            assert(transactions@.len() == 0);
            assert(tv.skip(results@.len() as int) =~= Seq::<TxView>::empty());
            let full = import_fold(
                client,
                mc,
                default_origin,
                q0.entries@,
                q0.minimal_fee,
                q0.limit,
                q0.next_seq,
                tv,
            );
            assert(results@ + Seq::<Result<TransactionImportResult, Error>>::empty() =~= results@);
        }
        results
    }

    /// Admit a batch received from the network: one result per input, in
    /// input order.
    pub fn import_external_transactions<C: AccountData + BlockChain>(
        &mut self,
        client: &C,
        transactions: Vec<UnverifiedTransaction>,
    ) -> (rs: Vec<Result<TransactionImportResult, Error>>)
        requires
            old(self).transaction_queue.wf(),
            old(self).transaction_queue.next_seq + transactions@.len() <= u64::MAX,
        ensures
            rs@.len() == transactions@.len(),
            forall|i: int|
                0 <= i < rs@.len() && client.spec_includes_transaction(
                    (#[trigger] transactions@[i])@.hash,
                ) ==> rs@[i] == Err::<TransactionImportResult, Error>(Error::AlreadyImported),
            final(self).transaction_queue.wf(),
            final(self).transaction_queue.minimal_fee == old(self).transaction_queue.minimal_fee,
            final(self).transaction_queue.limit == old(self).transaction_queue.limit,
            final(self).author == old(self).author,
            final(self).extra_data == old(self).extra_data,
            final(self).engine == old(self).engine,
            ({
                let folded = import_fold(
                    client,
                    old(self).engine.machine.min_transaction_cost,
                    TransactionOrigin::External,
                    old(self).transaction_queue.entries@,
                    old(self).transaction_queue.minimal_fee,
                    old(self).transaction_queue.limit,
                    old(self).transaction_queue.next_seq,
                    transactions@.map_values(|t: UnverifiedTransaction| t@),
                );
                &&& rs@ == folded.0
                &&& final(self).transaction_queue.entries@ == folded.1
                &&& final(self).transaction_queue.next_seq == folded.2
            }),
    {
        self.add_transactions_to_queue(client, transactions, TransactionOrigin::External)
    }

    /// Admit a transaction signed by this node's operator. Exactly one
    /// result comes back for the one transaction handed in.
    pub fn import_own_transaction<C: AccountData + BlockChain>(
        &mut self,
        chain: &C,
        transaction: SignedTransaction,
    ) -> (r: Result<TransactionImportResult, Error>)
        requires
            old(self).transaction_queue.wf(),
            old(self).transaction_queue.next_seq < u64::MAX,
        ensures
            chain.spec_includes_transaction(transaction.hash) ==> r == Err::<
                TransactionImportResult,
                Error,
            >(Error::AlreadyImported),
            !chain.spec_includes_transaction(transaction.hash) && transaction.sender == 0 ==> r
                == Err::<TransactionImportResult, Error>(Error::InvalidSignature),
            !chain.spec_includes_transaction(transaction.hash) && transaction.sender != 0
                && transaction.fee < old(self).engine.machine.min_transaction_cost ==> r == Err::<
                TransactionImportResult,
                Error,
            >(Error::InsufficientFee),
            final(self).transaction_queue.wf(),
            final(self).transaction_queue.minimal_fee == old(self).transaction_queue.minimal_fee,
            final(self).transaction_queue.limit == old(self).transaction_queue.limit,
            final(self).author == old(self).author,
            final(self).extra_data == old(self).extra_data,
            final(self).engine == old(self).engine,
            ({
                let step = import_step(
                    chain,
                    old(self).engine.machine.min_transaction_cost,
                    TransactionOrigin::Local,
                    old(self).transaction_queue.entries@,
                    old(self).transaction_queue.minimal_fee,
                    old(self).transaction_queue.limit,
                    old(self).transaction_queue.next_seq,
                    TxView {
                        nonce: transaction.nonce,
                        fee: transaction.fee,
                        signer: transaction.sender,
                        hash: transaction.hash,
                        payload: Seq::empty(),
                    },
                );
                &&& r == step.0
                &&& final(self).transaction_queue.entries@ == step.1
                &&& final(self).transaction_queue.next_seq == step.2
            }),
    {
        let unverified = transaction.into_unverified();
        let ghost uvv = unverified@;
        let mut batch: Vec<UnverifiedTransaction> = Vec::new();
        batch.push(unverified);
        let ghost b0 = batch@;
        proof {
            assert(b0.len() == 1);
            assert(b0[0]@ == uvv);
        }
        let mut results = self.add_transactions_to_queue(chain, batch, TransactionOrigin::Local);
        proof {
            assert(results@.len() == 1);
            assert(b0[0]@.hash == transaction.hash);
            assert(b0[0]@.signer == transaction.sender);
            assert(b0[0]@.payload.len() == 0);
            let bv = b0.map_values(|t: UnverifiedTransaction| t@);
            let t = TxView {
                nonce: transaction.nonce,
                fee: transaction.fee,
                signer: transaction.sender,
                hash: transaction.hash,
                payload: Seq::<u8>::empty(),
            };
            assert(bv[0] == t);
            assert(bv.first() == t);
            assert(bv.drop_first() =~= Seq::<TxView>::empty());
            let step = import_step(
                chain,
                old(self).engine.machine.min_transaction_cost,
                TransactionOrigin::Local,
                old(self).transaction_queue.entries@,
                old(self).transaction_queue.minimal_fee,
                old(self).transaction_queue.limit,
                old(self).transaction_queue.next_seq,
                t,
            );
            let folded = import_fold(
                chain,
                old(self).engine.machine.min_transaction_cost,
                TransactionOrigin::Local,
                old(self).transaction_queue.entries@,
                old(self).transaction_queue.minimal_fee,
                old(self).transaction_queue.limit,
                old(self).transaction_queue.next_seq,
                bv,
            );
            let rest = import_fold(
                chain,
                old(self).engine.machine.min_transaction_cost,
                TransactionOrigin::Local,
                step.1,
                old(self).transaction_queue.minimal_fee,
                old(self).transaction_queue.limit,
                step.2,
                bv.drop_first(),
            );
            assert(bv.drop_first().len() == 0);
            assert(rest.1 == step.1 && rest.2 == step.2);
            assert(folded.0 =~= seq![step.0]);
            assert(folded.1 == step.1);
            assert(folded.2 == step.2);
            assert(results@[0] == step.0);
        }
        let ghost r0 = results@;
        // One result returned per added transaction; one added, so one result.
        let import = results.pop().unwrap();
        proof {
            assert(import == r0[0]);
        }
        import
    }

    /// Queue counts for the block-building path.
    pub fn status(&self) -> (st: MinerStatus)
        ensures
            st.transactions_in_pending_queue == select_entries(
                self.transaction_queue.entries@,
                pending_pred(),
            ).len(),
            st.transactions_in_future_queue == select_entries(
                self.transaction_queue.entries@,
                future_pred(),
            ).len(),
            st.transactions_in_pending_block == 0,
    {
        let status = self.transaction_queue.status();
        MinerStatus {
            transactions_in_pending_queue: status.pending,
            transactions_in_future_queue: status.future,
            transactions_in_pending_block: 0,
        }
    }

    /// The block author this node signs as.
    pub fn author(&self) -> (r: u64)
        ensures
            r == self.author,
    {
        self.author
    }

    /// Set the block author.
    pub fn set_author(&mut self, author: u64)
        ensures
            final(self).author == author,
            final(self).transaction_queue == old(self).transaction_queue,
            final(self).extra_data == old(self).extra_data,
            final(self).engine == old(self).engine,
    {
        self.author = author;
    }

    /// The extra data placed into built blocks.
    pub fn extra_data(&self) -> (r: Vec<u8>)
        ensures
            r@ == self.extra_data@,
    {
        let mut out: Vec<u8> = Vec::new();
        let mut i: usize = 0;
        proof {
            assert(out@ =~= self.extra_data@.take(0));
        }
        while i < self.extra_data.len()
            invariant
                i <= self.extra_data@.len(),
                out@ == self.extra_data@.take(i as int),
            decreases self.extra_data@.len() - i,
        {
            proof {
                assert(self.extra_data@.take(i as int + 1).drop_last() =~= self.extra_data@.take(
                    i as int,
                ));
            }
            out.push(self.extra_data[i]);
            i += 1;
        }
        proof {
            assert(self.extra_data@.take(self.extra_data@.len() as int) =~= self.extra_data@);
        }
        out
    }

    /// Set the extra data placed into built blocks.
    pub fn set_extra_data(&mut self, extra_data: Vec<u8>)
        ensures
            final(self).extra_data == extra_data,
            final(self).transaction_queue == old(self).transaction_queue,
            final(self).author == old(self).author,
            final(self).engine == old(self).engine,
    {
        self.extra_data = extra_data;
    }

    /// Hand the engine a signing identity; a no-op unless the engine seals
    /// internally.
    pub fn set_engine_signer(&mut self, address: u64, private: u64)
        ensures
            final(self).engine.signer == if old(self).engine.spec_seals_internally() is Some {
                Some(crate::engine::EngineSigner { address, private })
            } else {
                old(self).engine.signer
            },
            final(self).engine.kind == old(self).engine.kind,
            final(self).engine.machine == old(self).engine.machine,
            final(self).transaction_queue == old(self).transaction_queue,
            final(self).author == old(self).author,
            final(self).extra_data == old(self).extra_data,
    {
        if self.engine.seals_internally().is_some() {
            self.engine.set_signer(address, private)
        }
    }

    /// The pool's fee floor.
    pub fn minimal_fee(&self) -> (r: u64)
        ensures
            r == self.transaction_queue.minimal_fee,
    {
        self.transaction_queue.minimal_fee()
    }

    /// Raise or lower the pool's fee floor, evicting entries under it.
    pub fn set_minimal_fee(&mut self, min_fee: u64)
        requires
            old(self).transaction_queue.wf(),
        ensures
            final(self).transaction_queue.wf(),
            final(self).transaction_queue.entries@ == prune_below_fee(
                old(self).transaction_queue.entries@,
                min_fee,
            ),
            final(self).transaction_queue.minimal_fee == min_fee,
            final(self).transaction_queue.limit == old(self).transaction_queue.limit,
            final(self).author == old(self).author,
            final(self).extra_data == old(self).extra_data,
            final(self).engine == old(self).engine,
    {
        self.transaction_queue.set_minimal_fee(min_fee);
    }

    /// The pool's capacity bound.
    pub fn transactions_limit(&self) -> (r: usize)
        ensures
            r == self.transaction_queue.limit,
    {
        self.transaction_queue.limit()
    }

    /// Raise or lower the pool's capacity, evicting the lowest-ranked
    /// entries of a pool over the new bound.
    pub fn set_transactions_limit(&mut self, limit: usize)
        requires
            old(self).transaction_queue.wf(),
        ensures
            final(self).transaction_queue.wf(),
            final(self).transaction_queue.entries@ == pool::evict_to_limit(
                old(self).transaction_queue.entries@,
                limit,
            ),
            final(self).transaction_queue.limit == limit,
            final(self).transaction_queue.minimal_fee == old(self).transaction_queue.minimal_fee,
            final(self).author == old(self).author,
            final(self).extra_data == old(self).extra_data,
            final(self).engine == old(self).engine,
    {
        self.transaction_queue.set_limit(limit)
    }

    /// The pending partition in output order: what the block builder reads.
    pub fn ready_transactions(&self) -> (r: Vec<SignedTransaction>)
        requires
            self.transaction_queue.wf(),
        ensures
            forall|a: int, b: int|
                0 <= a < b < r@.len() && (#[trigger] r@[a]).sender == (#[trigger] r@[b]).sender
                    ==> r@[a].nonce < r@[b].nonce,
            forall|k: int|
                0 <= k < r@.len() ==> (#[trigger] r@[k]).fee
                    >= self.transaction_queue.minimal_fee,
            exists|oe: Seq<PoolEntry>|
                (#[trigger] oe.to_multiset()) == select_entries(
                    self.transaction_queue.entries@,
                    pending_pred(),
                ).to_multiset() && r@.len() == oe.len() && (forall|k: int|
                    0 <= k < oe.len() ==> r@[k] == oe[k].tx),
    {
        self.transaction_queue.top_transactions()
    }

    /// All future-partition transactions, fee-ordered.
    pub fn future_transactions(&self) -> (r: Vec<SignedTransaction>)
        requires
            self.transaction_queue.wf(),
        ensures
            forall|a: int, b: int|
                0 <= a < b < r@.len() ==> (#[trigger] r@[a]).fee >= (#[trigger] r@[b]).fee,
            forall|k: int|
                0 <= k < r@.len() ==> (#[trigger] r@[k]).fee
                    >= self.transaction_queue.minimal_fee,
            exists|oe: Seq<PoolEntry>|
                (#[trigger] oe.to_multiset()) == select_entries(
                    self.transaction_queue.entries@,
                    future_pred(),
                ).to_multiset() && r@.len() == oe.len() && (forall|k: int|
                    0 <= k < oe.len() ==> r@[k] == oe[k].tx) && (forall|a: int, b: int|
                    0 <= a < b < oe.len() ==> pool::prio_ge(#[trigger] oe[a], #[trigger] oe[b])),
    {
        self.transaction_queue.future_transactions()
    }
}

} // verus!
