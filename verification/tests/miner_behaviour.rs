use codechain::client::Account;
use codechain::client::MemoryClient;
use codechain::config::Engine;
use codechain::engine::CodeChainEngine;
use codechain::engine::EngineSigner;
use codechain::engine::Machine;
use codechain::miner::Miner;
use codechain::types::Error;
use codechain::types::Header;
use codechain::types::SignedTransaction;
use codechain::types::UnverifiedTransaction;

fn solo_engine(min_cost: u64) -> CodeChainEngine {
    CodeChainEngine {
        kind: Engine::Solo,
        machine: Machine { min_transaction_cost: min_cost },
        signer: None,
    }
}

fn client_with(accounts: Vec<Account>, included: Vec<u64>) -> MemoryClient {
    let mut c = MemoryClient::new(Header::default());
    c.accounts = accounts;
    c.included = included;
    c
}

fn unverified(signer: u64, nonce: u64, fee: u64, hash: u64) -> UnverifiedTransaction {
    UnverifiedTransaction { nonce, fee, signer, hash, payload: vec![] }
}

#[test]
fn batch_returns_one_result_per_input_in_order() {
    let client = client_with(vec![Account { address: 1, nonce: 0, balance: 1000 }], vec![77]);
    let mut miner = Miner::new(solo_engine(0), 10, 0);
    let batch = vec![
        unverified(1, 0, 5, 11),
        unverified(0, 1, 5, 12),
        unverified(1, 1, 5, 77),
        unverified(1, 1, 5, 13),
    ];
    let results = miner.import_external_transactions(&client, batch);
    assert_eq!(results.len(), 4);
    assert!(results[0].is_ok());
    assert_eq!(results[1], Err(Error::InvalidSignature));
    assert_eq!(results[2], Err(Error::AlreadyImported));
    assert!(results[3].is_ok());
}

#[test]
fn chain_included_hash_is_rejected_regardless_of_fee() {
    let client = client_with(vec![Account { address: 1, nonce: 0, balance: 1000 }], vec![42]);
    let mut miner = Miner::new(solo_engine(0), 10, 0);
    let results = miner.import_external_transactions(&client, vec![unverified(1, 0, 999, 42)]);
    assert_eq!(results, vec![Err(Error::AlreadyImported)]);
}

#[test]
fn own_transaction_takes_local_path() {
    let client = client_with(vec![Account { address: 1, nonce: 0, balance: 1000 }], vec![]);
    let mut miner = Miner::new(solo_engine(0), 10, 0);
    let signed = SignedTransaction { sender: 1, nonce: 0, fee: 5, hash: 21 };
    assert!(miner.import_own_transaction(&client, signed).is_ok());
    assert_eq!(miner.ready_transactions(), vec![signed]);
    assert_eq!(miner.status().transactions_in_pending_queue, 1);
    assert_eq!(miner.status().transactions_in_pending_block, 0);
}

#[test]
fn protocol_fee_floor_applies_before_the_pool() {
    let client = client_with(vec![Account { address: 1, nonce: 0, balance: 1000 }], vec![]);
    let mut miner = Miner::new(solo_engine(10), 100, 0);
    let results = miner.import_external_transactions(&client, vec![unverified(1, 0, 9, 31)]);
    assert_eq!(results, vec![Err(Error::InsufficientFee)]);
}

#[test]
fn oversized_payload_is_rejected() {
    let client = client_with(vec![Account { address: 1, nonce: 0, balance: 1000 }], vec![]);
    let mut miner = Miner::new(solo_engine(0), 10, 0);
    let mut big = unverified(1, 0, 5, 51);
    big.payload = vec![0; 1025];
    let results = miner.import_external_transactions(&client, vec![big]);
    assert_eq!(results, vec![Err(Error::InvalidPayloadSize)]);
}

#[test]
fn author_and_extra_data_are_plain_cells() {
    let mut miner = Miner::new(solo_engine(0), 10, 0);
    assert_eq!(miner.author(), 0);
    miner.set_author(9);
    assert_eq!(miner.author(), 9);
    assert_eq!(miner.extra_data(), Vec::<u8>::new());
    miner.set_extra_data(vec![1, 2, 3]);
    assert_eq!(miner.extra_data(), vec![1, 2, 3]);
}

#[test]
fn engine_signer_set_only_when_sealing_internally() {
    let mut miner = Miner::new(solo_engine(0), 10, 0);
    miner.set_engine_signer(5, 6);
    assert_eq!(miner.engine.signer, None);

    let authority = CodeChainEngine {
        kind: Engine::Tendermint(codechain::config::Tendermint { validators: vec![1] }),
        machine: Machine { min_transaction_cost: 0 },
        signer: None,
    };
    let mut miner = Miner::new(authority, 10, 0);
    miner.set_engine_signer(5, 6);
    assert_eq!(miner.engine.signer, Some(EngineSigner { address: 5, private: 6 }));
}

#[test]
fn pool_configuration_round_trips_through_miner() {
    let mut miner = Miner::new(solo_engine(0), 10, 3);
    assert_eq!(miner.minimal_fee(), 3);
    miner.set_minimal_fee(7);
    assert_eq!(miner.minimal_fee(), 7);
    assert_eq!(miner.transactions_limit(), 10);
    miner.set_transactions_limit(4);
    assert_eq!(miner.transactions_limit(), 4);
}

#[test]
fn future_transactions_visible_through_miner() {
    let client = client_with(vec![Account { address: 1, nonce: 0, balance: 1000 }], vec![]);
    let mut miner = Miner::new(solo_engine(0), 10, 0);
    let results = miner.import_external_transactions(&client, vec![unverified(1, 5, 8, 61)]);
    assert!(results[0].is_ok());
    assert_eq!(miner.ready_transactions(), vec![]);
    assert_eq!(
        miner.future_transactions(),
        vec![SignedTransaction { sender: 1, nonce: 5, fee: 8, hash: 61 }]
    );
}
