use codechain::client::Account;
use codechain::client::MemoryClient;
use codechain::miner::TransactionDetailsProvider;
use codechain::pool::TransactionQueue;
use codechain::types::Error;
use codechain::types::Header;
use codechain::types::SignedTransaction;
use codechain::types::TransactionImportResult;
use codechain::types::TransactionOrigin;

fn client_with(accounts: Vec<Account>) -> MemoryClient {
    let mut c = MemoryClient::new(Header::default());
    c.accounts = accounts;
    c
}

fn rich(address: u64) -> Account {
    Account { address, nonce: 0, balance: 1_000_000 }
}

fn tx(sender: u64, nonce: u64, fee: u64, hash: u64) -> SignedTransaction {
    SignedTransaction { sender, nonce, fee, hash }
}

#[test]
fn eviction_keeps_highest_fees() {
    // Pool limit 2, fee floor 0: the third admission evicts the cheapest
    // entry, and the pending order is by descending fee.
    let client = client_with(vec![rich(1), rich(2)]);
    let provider = TransactionDetailsProvider::new(&client);
    let mut queue = TransactionQueue::new(2, 0);
    assert_eq!(
        queue.add(tx(1, 0, 5, 101), TransactionOrigin::External, 0, &provider),
        Ok(TransactionImportResult::Current)
    );
    assert_eq!(
        queue.add(tx(1, 1, 3, 102), TransactionOrigin::External, 0, &provider),
        Ok(TransactionImportResult::Current)
    );
    assert_eq!(
        queue.add(tx(2, 0, 10, 103), TransactionOrigin::External, 0, &provider),
        Ok(TransactionImportResult::Current)
    );
    let top = queue.top_transactions();
    assert_eq!(top, vec![tx(2, 0, 10, 103), tx(1, 0, 5, 101)]);
}

#[test]
fn replacement_higher_fee_wins_in_either_order() {
    let client = client_with(vec![rich(1)]);
    let provider = TransactionDetailsProvider::new(&client);

    let mut queue = TransactionQueue::new(10, 0);
    assert!(queue.add(tx(1, 0, 3, 201), TransactionOrigin::External, 0, &provider).is_ok());
    assert!(queue.add(tx(1, 0, 7, 202), TransactionOrigin::External, 0, &provider).is_ok());
    assert_eq!(queue.top_transactions(), vec![tx(1, 0, 7, 202)]);

    let mut queue = TransactionQueue::new(10, 0);
    assert!(queue.add(tx(1, 0, 7, 202), TransactionOrigin::External, 0, &provider).is_ok());
    assert_eq!(
        queue.add(tx(1, 0, 3, 201), TransactionOrigin::External, 0, &provider),
        Err(Error::TooCheapToReplace)
    );
    assert_eq!(queue.top_transactions(), vec![tx(1, 0, 7, 202)]);
}

#[test]
fn resubmitting_identical_entry_is_already_imported() {
    let client = client_with(vec![rich(1)]);
    let provider = TransactionDetailsProvider::new(&client);
    let mut queue = TransactionQueue::new(10, 0);
    assert!(queue.add(tx(1, 0, 3, 300), TransactionOrigin::External, 0, &provider).is_ok());
    assert_eq!(
        queue.add(tx(1, 0, 3, 300), TransactionOrigin::External, 0, &provider),
        Err(Error::AlreadyImported)
    );
}

#[test]
fn nonce_gap_lands_in_future_and_closes() {
    let client = client_with(vec![rich(1)]);
    let provider = TransactionDetailsProvider::new(&client);
    let mut queue = TransactionQueue::new(10, 0);
    assert_eq!(
        queue.add(tx(1, 2, 5, 401), TransactionOrigin::External, 0, &provider),
        Ok(TransactionImportResult::Future)
    );
    assert_eq!(queue.status().pending, 0);
    assert_eq!(queue.status().future, 1);
    assert_eq!(queue.top_transactions(), vec![]);
    assert_eq!(queue.future_transactions(), vec![tx(1, 2, 5, 401)]);
    assert_eq!(
        queue.add(tx(1, 0, 5, 402), TransactionOrigin::External, 0, &provider),
        Ok(TransactionImportResult::Current)
    );
    assert_eq!(
        queue.add(tx(1, 1, 5, 403), TransactionOrigin::External, 0, &provider),
        Ok(TransactionImportResult::Current)
    );
    assert_eq!(queue.status().pending, 3);
    assert_eq!(queue.status().future, 0);
    let top = queue.top_transactions();
    assert_eq!(top, vec![tx(1, 0, 5, 402), tx(1, 1, 5, 403), tx(1, 2, 5, 401)]);
}

#[test]
fn top_transactions_keeps_nonce_order_against_fees() {
    // The sender's nonce 1 pays more than nonce 0, yet nonce 0 comes first.
    let client = client_with(vec![rich(1)]);
    let provider = TransactionDetailsProvider::new(&client);
    let mut queue = TransactionQueue::new(10, 0);
    assert!(queue.add(tx(1, 0, 2, 501), TransactionOrigin::External, 0, &provider).is_ok());
    assert!(queue.add(tx(1, 1, 9, 502), TransactionOrigin::External, 0, &provider).is_ok());
    assert_eq!(queue.top_transactions(), vec![tx(1, 0, 2, 501), tx(1, 1, 9, 502)]);
}

#[test]
fn raising_minimal_fee_prunes_cheap_entries() {
    let client = client_with(vec![rich(1), rich(2)]);
    let provider = TransactionDetailsProvider::new(&client);
    let mut queue = TransactionQueue::new(10, 0);
    assert!(queue.add(tx(1, 0, 2, 601), TransactionOrigin::External, 0, &provider).is_ok());
    assert!(queue.add(tx(2, 0, 9, 602), TransactionOrigin::External, 0, &provider).is_ok());
    queue.set_minimal_fee(5);
    assert_eq!(queue.minimal_fee(), 5);
    assert_eq!(queue.top_transactions(), vec![tx(2, 0, 9, 602)]);
    assert_eq!(queue.future_transactions(), vec![]);
    assert_eq!(
        queue.add(tx(1, 1, 2, 603), TransactionOrigin::External, 0, &provider),
        Err(Error::InsufficientFee)
    );
}

#[test]
fn lowering_limit_evicts_lowest_ranked() {
    let client = client_with(vec![rich(1), rich(2), rich(3)]);
    let provider = TransactionDetailsProvider::new(&client);
    let mut queue = TransactionQueue::new(10, 0);
    assert!(queue.add(tx(1, 0, 5, 701), TransactionOrigin::External, 0, &provider).is_ok());
    assert!(queue.add(tx(2, 0, 1, 702), TransactionOrigin::External, 0, &provider).is_ok());
    assert!(queue.add(tx(3, 0, 9, 703), TransactionOrigin::External, 0, &provider).is_ok());
    queue.set_limit(2);
    assert_eq!(queue.limit(), 2);
    assert_eq!(queue.top_transactions(), vec![tx(3, 0, 9, 703), tx(1, 0, 5, 701)]);
}

#[test]
fn full_pool_rejects_low_fee() {
    let client = client_with(vec![rich(1), rich(2)]);
    let provider = TransactionDetailsProvider::new(&client);
    let mut queue = TransactionQueue::new(1, 0);
    assert!(queue.add(tx(1, 0, 5, 801), TransactionOrigin::External, 0, &provider).is_ok());
    assert_eq!(
        queue.add(tx(2, 0, 5, 802), TransactionOrigin::External, 0, &provider),
        Err(Error::LimitReached)
    );
    assert!(queue.add(tx(2, 0, 6, 803), TransactionOrigin::External, 0, &provider).is_ok());
    assert_eq!(queue.top_transactions(), vec![tx(2, 0, 6, 803)]);
}

#[test]
fn balance_must_cover_cumulative_fees() {
    let client = client_with(vec![Account { address: 1, nonce: 0, balance: 10 }]);
    let provider = TransactionDetailsProvider::new(&client);
    let mut queue = TransactionQueue::new(10, 0);
    assert!(queue.add(tx(1, 0, 6, 901), TransactionOrigin::External, 0, &provider).is_ok());
    assert_eq!(
        queue.add(tx(1, 1, 6, 902), TransactionOrigin::External, 0, &provider),
        Err(Error::InsufficientBalance)
    );
    assert!(queue.add(tx(1, 1, 4, 903), TransactionOrigin::External, 0, &provider).is_ok());
}
