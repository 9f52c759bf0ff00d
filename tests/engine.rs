use payments_engine::engine::ProcessingEngine;
use payments_engine::models::Account;
use payments_engine::models::Transaction;
use payments_engine::models::TransactionStore;
use payments_engine::processor::amount_to_string;
use payments_engine::processor::record_to_txn_enum;
use payments_engine::processor::Record;
use payments_engine::storage::MemoryTransactionStore;

fn run(txns: &[Transaction]) -> MemoryTransactionStore {
    let mut store = MemoryTransactionStore::new();
    {
        let mut engine = ProcessingEngine::new(&mut store);
        for t in txns {
            engine.process(t);
        }
    }
    store
}

fn account(client: u16, available: u128, held: u128, total: u128, locked: bool) -> Account {
    Account { client, available, held, total, locked }
}

fn dep(client: u16, tx: u32, amount: u128) -> Transaction {
    Transaction::Deposit { client, tx, amount }
}

fn wd(client: u16, tx: u32, amount: u128) -> Transaction {
    Transaction::Withdrawal { client, tx, amount }
}

fn all_balanced(store: &MemoryTransactionStore) -> bool {
    store
        .retrieve_all_accounts()
        .iter()
        .all(|a| a.total == a.available + a.held)
}

#[test]
fn deposit_opens_fresh_account() {
    let store = run(&[dep(1, 1, 500)]);
    assert_eq!(store.retrieve_account(1), Some(account(1, 500, 0, 500, false)));
    assert_eq!(store.retrieve_account(2), None);
    assert_eq!(store.retrieve_transaction(1, 1), Some(dep(1, 1, 500)));
}

#[test]
fn overdraft_leaves_account_unchanged() {
    let store = run(&[dep(1, 1, 500), wd(1, 2, 501)]);
    assert_eq!(store.retrieve_account(1), Some(account(1, 500, 0, 500, false)));
    assert_eq!(store.retrieve_transaction(1, 2), None);
}

#[test]
fn withdrawal_of_exact_balance() {
    let store = run(&[dep(1, 1, 500), wd(1, 2, 500)]);
    assert_eq!(store.retrieve_account(1), Some(account(1, 0, 0, 0, false)));
    assert_eq!(store.retrieve_transaction(1, 2), Some(wd(1, 2, 500)));
}

#[test]
fn withdrawal_from_unknown_client_ignored() {
    let store = run(&[wd(9, 1, 1)]);
    assert_eq!(store.retrieve_account(9), None);
    assert!(store.retrieve_all_accounts().is_empty());
}

#[test]
fn dispute_moves_deposit_to_held() {
    let store = run(&[dep(1, 1, 500), Transaction::Dispute { client: 1, tx: 1 }]);
    assert_eq!(store.retrieve_account(1), Some(account(1, 0, 500, 500, false)));
    assert!(store.has_disputes(1, 1));
}

#[test]
fn dispute_of_unknown_transaction_ignored() {
    let store = run(&[
        dep(1, 1, 500),
        Transaction::Dispute { client: 1, tx: 7 },
        Transaction::Dispute { client: 2, tx: 1 },
    ]);
    assert_eq!(store.retrieve_account(1), Some(account(1, 500, 0, 500, false)));
    assert_eq!(store.retrieve_account(2), None);
    assert!(!store.has_disputes(1, 7));
    assert!(!store.has_disputes(2, 1));
}

#[test]
fn dispute_of_withdrawal_ignored() {
    let store = run(&[dep(1, 1, 500), wd(1, 2, 200), Transaction::Dispute { client: 1, tx: 2 }]);
    assert_eq!(store.retrieve_account(1), Some(account(1, 300, 0, 300, false)));
    assert!(!store.has_disputes(1, 2));
}

#[test]
fn dispute_of_spent_deposit_ignored() {
    let store = run(&[dep(1, 1, 500), wd(1, 2, 400), Transaction::Dispute { client: 1, tx: 1 }]);
    assert_eq!(store.retrieve_account(1), Some(account(1, 100, 0, 100, false)));
}

#[test]
fn resolve_releases_held_funds() {
    let store = run(&[
        dep(1, 1, 500),
        Transaction::Dispute { client: 1, tx: 1 },
        Transaction::Resolve { client: 1, tx: 1 },
    ]);
    assert_eq!(store.retrieve_account(1), Some(account(1, 500, 0, 500, false)));
    assert!(!store.has_disputes(1, 1));
}

#[test]
fn resolve_without_dispute_ignored() {
    let store = run(&[dep(1, 1, 500), Transaction::Resolve { client: 1, tx: 1 }]);
    assert_eq!(store.retrieve_account(1), Some(account(1, 500, 0, 500, false)));
}

#[test]
fn second_resolve_ignored() {
    let store = run(&[
        dep(1, 1, 500),
        dep(1, 2, 300),
        Transaction::Dispute { client: 1, tx: 1 },
        Transaction::Dispute { client: 1, tx: 2 },
        Transaction::Resolve { client: 1, tx: 1 },
        Transaction::Resolve { client: 1, tx: 1 },
    ]);
    assert_eq!(store.retrieve_account(1), Some(account(1, 500, 300, 800, false)));
}

#[test]
fn chargeback_after_dispute_locks_account() {
    let store = run(&[
        dep(1, 1, 500),
        dep(1, 2, 200),
        Transaction::Dispute { client: 1, tx: 1 },
        Transaction::Chargeback { client: 1, tx: 1 },
    ]);
    assert_eq!(store.retrieve_account(1), Some(account(1, 200, 0, 200, true)));
    assert!(!store.has_disputes(1, 1));
}

#[test]
fn chargeback_without_dispute_ignored() {
    let store = run(&[dep(1, 1, 500), Transaction::Chargeback { client: 1, tx: 1 }]);
    assert_eq!(store.retrieve_account(1), Some(account(1, 500, 0, 500, false)));
}

#[test]
fn locked_account_still_takes_deposits_and_withdrawals() {
    let store = run(&[
        dep(1, 1, 500),
        Transaction::Dispute { client: 1, tx: 1 },
        Transaction::Chargeback { client: 1, tx: 1 },
        dep(1, 2, 300),
        wd(1, 3, 100),
    ]);
    assert_eq!(store.retrieve_account(1), Some(account(1, 200, 0, 200, true)));
}

#[test]
fn same_deposit_twice_credited_twice() {
    let store = run(&[dep(1, 1, 500), dep(1, 1, 500)]);
    assert_eq!(store.retrieve_account(1), Some(account(1, 1000, 0, 1000, false)));
    assert_eq!(store.retrieve_transaction(1, 1), Some(dep(1, 1, 500)));
}

#[test]
fn later_deposit_with_same_id_replaces_ledger_entry() {
    let store = run(&[dep(1, 1, 500), dep(1, 1, 700), Transaction::Dispute { client: 1, tx: 1 }]);
    assert_eq!(store.retrieve_account(1), Some(account(1, 500, 700, 1200, false)));
}

#[test]
fn deposit_that_would_overflow_ignored() {
    let store = run(&[dep(1, 1, u128::MAX), dep(1, 2, 1)]);
    assert_eq!(store.retrieve_account(1), Some(account(1, u128::MAX, 0, u128::MAX, false)));
    assert_eq!(store.retrieve_transaction(1, 2), None);
}

#[test]
fn zero_deposit_cannot_be_disputed() {
    let store = run(&[dep(1, 1, 0), Transaction::Dispute { client: 1, tx: 1 }]);
    assert_eq!(store.retrieve_account(1), Some(account(1, 0, 0, 0, false)));
    assert!(!store.has_disputes(1, 1));
}

#[test]
fn accounts_stay_balanced() {
    let store = run(&[
        dep(1, 1, 500),
        dep(2, 2, 900),
        wd(1, 3, 100),
        Transaction::Dispute { client: 2, tx: 2 },
        dep(3, 4, 50),
        Transaction::Dispute { client: 1, tx: 1 },
        Transaction::Resolve { client: 2, tx: 2 },
        Transaction::Chargeback { client: 1, tx: 1 },
        wd(2, 5, 1000),
    ]);
    assert!(all_balanced(&store));
    assert_eq!(store.retrieve_account(1), Some(account(1, 400, 0, 400, false)));
}

#[test]
fn all_accounts_in_client_order() {
    let store = run(&[dep(65535, 1, 1), dep(7, 2, 2), dep(0, 3, 3), dep(300, 4, 4)]);
    let clients: Vec<u16> = store.retrieve_all_accounts().iter().map(|a| a.client).collect();
    assert_eq!(clients, vec![0, 7, 300, 65535]);
}

#[test]
fn default_store_is_empty() {
    let store = MemoryTransactionStore::default();
    assert!(store.retrieve_all_accounts().is_empty());
    assert_eq!(store.retrieve_transaction(0, 0), None);
}

#[test]
fn end_to_end_rows() {
    let rows = [
        ("deposit", 1, 1, "1.0"),
        ("deposit", 2, 2, "2.0"),
        ("deposit", 1, 3, "2.0"),
        ("withdrawal", 1, 4, "1.5"),
        ("withdrawal", 2, 5, "3.0"),
    ];
    let mut store = MemoryTransactionStore::new();
    {
        let mut engine = ProcessingEngine::new(&mut store);
        for (kind, client, tx, amount) in rows {
            let r = Record {
                kind: kind.to_string(),
                client,
                tx,
                amount: Some(amount.to_string()),
            };
            engine.process(&record_to_txn_enum(&r).unwrap());
        }
    }
    let lines: Vec<String> = store
        .retrieve_all_accounts()
        .iter()
        .map(|a| {
            format!(
                "{},{},{},{},{}",
                a.client,
                amount_to_string(a.available),
                amount_to_string(a.held),
                amount_to_string(a.total),
                a.locked
            )
        })
        .collect();
    assert_eq!(
        lines,
        vec!["1,1.5000,0.0000,1.5000,false", "2,2.0000,0.0000,2.0000,false"]
    );
}

#[test]
fn second_dispute_of_same_deposit_held_again() {
    let store = run(&[
        dep(1, 1, 500),
        dep(1, 2, 500),
        Transaction::Dispute { client: 1, tx: 1 },
        Transaction::Dispute { client: 1, tx: 1 },
    ]);
    assert_eq!(store.retrieve_account(1), Some(account(1, 0, 1000, 1000, false)));
    assert!(store.has_disputes(1, 1));
}

#[test]
fn charged_back_deposit_can_be_disputed_again() {
    let store = run(&[
        dep(1, 1, 500),
        dep(1, 2, 700),
        Transaction::Dispute { client: 1, tx: 1 },
        Transaction::Chargeback { client: 1, tx: 1 },
        Transaction::Dispute { client: 1, tx: 1 },
    ]);
    assert_eq!(store.retrieve_account(1), Some(account(1, 200, 500, 700, true)));
    assert!(store.has_disputes(1, 1));
}

#[test]
fn deposit_can_be_disputed_again_after_resolve() {
    let store = run(&[
        dep(1, 1, 500),
        Transaction::Dispute { client: 1, tx: 1 },
        Transaction::Resolve { client: 1, tx: 1 },
        Transaction::Dispute { client: 1, tx: 1 },
    ]);
    assert_eq!(store.retrieve_account(1), Some(account(1, 0, 500, 500, false)));
    assert!(store.has_disputes(1, 1));
}

#[test]
fn unbalanced_account_still_listed() {
    let mut store = MemoryTransactionStore::new();
    store.save_account(account(4, 10, 0, 99, false));
    assert_eq!(store.retrieve_all_accounts(), vec![account(4, 10, 0, 99, false)]);
}
