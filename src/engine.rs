use vstd::prelude::*;

use crate::models::accounts_consistent;
use crate::models::disputes_after;
use crate::models::ledger_after;
use crate::models::Account;
use crate::models::Transaction;
use crate::models::TransactionStore;

verus! {

/// What the ledger holds under `(client, tx)`.
pub open spec fn lookup(ledger: Map<(u16, u32), Transaction>, client: u16, tx: u32) -> Option<
    Transaction,
> {
    if ledger.contains_key((client, tx)) {
        Some(ledger[(client, tx)])
    } else {
        None
    }
}

/// The amount of a deposit that a lookup found; 0 for anything else.
pub open spec fn deposit_amount(found: Option<Transaction>) -> u128 {
    match found {
        Some(Transaction::Deposit { amount, .. }) => amount,
        _ => 0,
    }
}

/// The account of `client`, or a fresh one where the client is new.
pub open spec fn account_or_fresh(accounts: Map<u16, Account>, client: u16) -> Account {
    if accounts.contains_key(client) {
        accounts[client]
    } else {
        Account::fresh(client)
    }
}

/// The account that `t` leaves behind, or `None` where the rules ignore `t`.
///
/// - A deposit always applies, to a fresh account for a new client, unless
///   the total would no longer fit in 128 bits.
/// - A withdrawal applies to an existing account with at least `amount`
///   available.
/// - A dispute applies where `(client, tx)` names a deposit of a non-zero
///   amount that is still available on an existing account; the amount moves
///   from available to held. Nothing else is asked of it: a deposit that is
///   under dispute already, or that was charged back, is held again.
/// - A resolve or a chargeback applies only where `(client, tx)` is under
///   dispute and names such a deposit whose amount is held. A resolve moves
///   the amount back to available; a chargeback removes it from held and total
///   and locks the account.
///
/// A locked account is not refused anything.
pub open spec fn updated_account(
    accounts: Map<u16, Account>,
    ledger: Map<(u16, u32), Transaction>,
    disputes: Set<(u16, u32)>,
    t: Transaction,
) -> Option<Account> {
    match t {
        Transaction::Deposit { client, amount, .. } => {
            let a = account_or_fresh(accounts, client);
            if a.total + amount <= u128::MAX {
                Some(
                    Account {
                        available: (a.available + amount) as u128,
                        total: (a.total + amount) as u128,
                        ..a
                    },
                )
            } else {
                None
            }
        },
        Transaction::Withdrawal { client, amount, .. } => {
            if accounts.contains_key(client) && amount <= accounts[client].available {
                let a = accounts[client];
                Some(
                    Account {
                        available: (a.available - amount) as u128,
                        total: (a.total - amount) as u128,
                        ..a
                    },
                )
            } else {
                None
            }
        },
        Transaction::Dispute { client, tx } => {
            let amount = deposit_amount(lookup(ledger, client, tx));
            if amount > 0 && accounts.contains_key(client) && amount
                <= accounts[client].available {
                let a = accounts[client];
                Some(
                    Account {
                        available: (a.available - amount) as u128,
                        held: (a.held + amount) as u128,
                        ..a
                    },
                )
            } else {
                None
            }
        },
        Transaction::Resolve { client, tx } => {
            let amount = deposit_amount(lookup(ledger, client, tx));
            if disputes.contains((client, tx)) && amount > 0 && accounts.contains_key(client)
                && amount <= accounts[client].held {
                let a = accounts[client];
                Some(
                    Account {
                        available: (a.available + amount) as u128,
                        held: (a.held - amount) as u128,
                        ..a
                    },
                )
            } else {
                None
            }
        },
        Transaction::Chargeback { client, tx } => {
            let amount = deposit_amount(lookup(ledger, client, tx));
            if disputes.contains((client, tx)) && amount > 0 && accounts.contains_key(client)
                && amount <= accounts[client].held {
                let a = accounts[client];
                Some(
                    Account {
                        held: (a.held - amount) as u128,
                        total: (a.total - amount) as u128,
                        locked: true,
                        ..a
                    },
                )
            } else {
                None
            }
        },
    }
}

/// Every rule leaves the account that it touches balanced and filed under
/// its own client: `total == available + held` holds of every account after
/// every transaction, applied or ignored.
pub proof fn lemma_rules_keep_accounts_consistent(
    accounts: Map<u16, Account>,
    ledger: Map<(u16, u32), Transaction>,
    disputes: Set<(u16, u32)>,
    t: Transaction,
)
    requires
        accounts_consistent(accounts),
    ensures
        match updated_account(accounts, ledger, disputes, t) {
            Some(a) => a.client == t.client_of() && accounts_consistent(accounts.insert(a.client, a)),
            None => true,
        },
{
    match updated_account(accounts, ledger, disputes, t) {
        Some(a) => {
            assert(a.client == t.client_of() && a.balanced());
            assert forall|c: u16| #[trigger] accounts.insert(a.client, a).contains_key(c) implies accounts.insert(
                a.client,
                a,
            )[c].client == c && accounts.insert(a.client, a)[c].balanced() by {
                if c != a.client {
                    assert(accounts.contains_key(c));
                }
            }
        },
        None => {},
    }
}

/// A deposit to a client never seen before opens the account with the
/// amount available, nothing held, and the amount as total.
pub proof fn lemma_deposit_opens_account(
    accounts: Map<u16, Account>,
    ledger: Map<(u16, u32), Transaction>,
    disputes: Set<(u16, u32)>,
    client: u16,
    tx: u32,
    amount: u128,
)
    requires
        !accounts.contains_key(client),
    ensures
        updated_account(accounts, ledger, disputes, Transaction::Deposit { client, tx, amount })
            == Some(Account { client, available: amount, held: 0, total: amount, locked: false }),
{
}

/// A withdrawal of more than is available is ignored as a whole: nothing is
/// taken, so the store stays as it was.
pub proof fn lemma_overdraft_ignored(
    accounts: Map<u16, Account>,
    ledger: Map<(u16, u32), Transaction>,
    disputes: Set<(u16, u32)>,
    client: u16,
    tx: u32,
    amount: u128,
)
    requires
        accounts.contains_key(client) ==> amount > accounts[client].available,
    ensures
        updated_account(accounts, ledger, disputes, Transaction::Withdrawal { client, tx, amount })
            is None,
{
}

/// Disputing a deposit moves its amount from available to held, where it is
/// still available; the total does not change.
pub proof fn lemma_dispute_holds_deposit(
    accounts: Map<u16, Account>,
    ledger: Map<(u16, u32), Transaction>,
    disputes: Set<(u16, u32)>,
    client: u16,
    tx: u32,
    amount: u128,
)
    requires
        accounts_consistent(accounts),
        ledger.contains_key((client, tx)),
        ledger[(client, tx)] == (Transaction::Deposit { client, tx, amount }),
        0 < amount,
        accounts.contains_key(client),
        amount <= accounts[client].available,
    ensures
        updated_account(accounts, ledger, disputes, Transaction::Dispute { client, tx }) == Some(
            Account {
                available: (accounts[client].available - amount) as u128,
                held: (accounts[client].held + amount) as u128,
                ..accounts[client]
            },
        ),
        accounts[client].total == accounts[client].available + accounts[client].held,
{
}

/// A dispute on a `(client, tx)` that the ledger does not hold is ignored.
pub proof fn lemma_dispute_of_unknown_ignored(
    accounts: Map<u16, Account>,
    ledger: Map<(u16, u32), Transaction>,
    disputes: Set<(u16, u32)>,
    client: u16,
    tx: u32,
)
    requires
        !ledger.contains_key((client, tx)),
    ensures
        updated_account(accounts, ledger, disputes, Transaction::Dispute { client, tx }) is None,
{
}

/// A dispute of a deposit followed by a chargeback of it locks the account
/// and takes the amount out of held and total; what was available before the
/// dispute, less the amount, stays available.
pub proof fn lemma_dispute_then_chargeback(
    accounts: Map<u16, Account>,
    ledger: Map<(u16, u32), Transaction>,
    disputes: Set<(u16, u32)>,
    client: u16,
    tx: u32,
    amount: u128,
)
    requires
        accounts_consistent(accounts),
        ledger.contains_key((client, tx)),
        ledger[(client, tx)] == (Transaction::Deposit { client, tx, amount }),
        0 < amount,
        accounts.contains_key(client),
        amount <= accounts[client].available,
    ensures
        ({
            let d = Transaction::Dispute { client, tx };
            let held = updated_account(accounts, ledger, disputes, d)->Some_0;
            let after_dispute = accounts.insert(client, held);
            &&& updated_account(accounts, ledger, disputes, d) is Some
            &&& ledger_after(ledger, d) == ledger
            &&& updated_account(
                after_dispute,
                ledger,
                disputes_after(disputes, d),
                Transaction::Chargeback { client, tx },
            ) == Some(
                Account {
                    client,
                    available: (accounts[client].available - amount) as u128,
                    held: accounts[client].held,
                    total: (accounts[client].total - amount) as u128,
                    locked: true,
                },
            )
        }),
{
}

/// A locked account still takes deposits: the lock does not refuse them.
pub proof fn lemma_locked_account_takes_deposit(
    accounts: Map<u16, Account>,
    ledger: Map<(u16, u32), Transaction>,
    disputes: Set<(u16, u32)>,
    client: u16,
    tx: u32,
    amount: u128,
)
    requires
        accounts.contains_key(client),
        accounts[client].locked,
        accounts[client].total + amount <= u128::MAX,
    ensures
        updated_account(accounts, ledger, disputes, Transaction::Deposit { client, tx, amount })
            == Some(
            Account {
                available: (accounts[client].available + amount) as u128,
                total: (accounts[client].total + amount) as u128,
                ..accounts[client]
            },
        ),
{
}

/// Deposits are not told apart by their transaction id: the same deposit
/// processed twice is credited twice.
pub proof fn lemma_repeated_deposit_credited_twice(
    accounts: Map<u16, Account>,
    ledger: Map<(u16, u32), Transaction>,
    disputes: Set<(u16, u32)>,
    client: u16,
    tx: u32,
    amount: u128,
)
    requires
        accounts_consistent(accounts),
        account_or_fresh(accounts, client).total + 2 * amount <= u128::MAX,
    ensures
        ({
            let t = Transaction::Deposit { client, tx, amount };
            let first = updated_account(accounts, ledger, disputes, t)->Some_0;
            let second = updated_account(
                accounts.insert(client, first),
                ledger_after(ledger, t),
                disputes_after(disputes, t),
                t,
            );
            &&& updated_account(accounts, ledger, disputes, t) is Some
            &&& second is Some
            &&& second->Some_0.available == account_or_fresh(accounts, client).available + 2 * amount
            &&& second->Some_0.total == account_or_fresh(accounts, client).total + 2 * amount
        }),
{
}

/// The amount of the deposit that `store` files under `(client, tx)`, or 0.
fn deposit_amount_of<T: TransactionStore>(store: &T, client: u16, tx: u32) -> (r: u128)
    ensures
        r == deposit_amount(lookup(store.transactions(), client, tx)),
{
    match store.retrieve_transaction(client, tx) {
        Some(Transaction::Deposit { amount, .. }) => amount,
        _ => 0,
    }
}

/// Applies transactions, one at a time, to a store that it borrows.
///
/// The store is a public field so that callers can follow, through the
/// engine's contracts, what becomes of the value that they lent it.
pub struct ProcessingEngine<'a, T> {
    pub store: &'a mut T,
}

impl<'a, T: TransactionStore> ProcessingEngine<'a, T> {
    /// An engine that works on `t`.
    pub fn new(t: &'a mut T) -> (r: Self)
        ensures
            *r.store == *old(t),
            *final(r.store) == *final(t),
    {
        ProcessingEngine { store: t }
    }

    /// Applies `txn` to the store, or leaves the store as it was where the
    /// rules ignore it (see `updated_account`). Nothing is reported either way.
    pub fn process(&mut self, txn: &Transaction)
        requires
            accounts_consistent((*old(self).store).accounts()),
        ensures
            *final(final(self).store) == *final(old(self).store),
            accounts_consistent((*final(self).store).accounts()),
            match updated_account(
                (*old(self).store).accounts(),
                (*old(self).store).transactions(),
                (*old(self).store).disputes(),
                *txn,
            ) {
                Some(a) => {
                    &&& (*final(self).store).accounts() == (*old(self).store).accounts().insert(
                        a.client,
                        a,
                    )
                    &&& (*final(self).store).transactions() == ledger_after(
                        (*old(self).store).transactions(),
                        *txn,
                    )
                    &&& (*final(self).store).disputes() == disputes_after(
                        (*old(self).store).disputes(),
                        *txn,
                    )
                },
                None => {
                    &&& (*final(self).store).accounts() == (*old(self).store).accounts()
                    &&& (*final(self).store).transactions() == (*old(self).store).transactions()
                    &&& (*final(self).store).disputes() == (*old(self).store).disputes()
                },
            },
    {
        match *txn {
            Transaction::Deposit { client, amount, .. } => {
                let account = match self.store.retrieve_account(client) {
                    Some(a) => a,
                    None => Account { client, available: 0, held: 0, total: 0, locked: false },
                };
                if amount <= u128::MAX - account.total {
                    let updated = Account {
                        available: account.available + amount,
                        total: account.total + amount,
                        ..account
                    };
                    self.store.save_account(updated);
                    self.store.save_transaction(*txn);
                }
            },
            Transaction::Withdrawal { client, amount, .. } => {
                match self.store.retrieve_account(client) {
                    None => {},
                    Some(account) => {
                        if account.available >= amount {
                            let updated = Account {
                                available: account.available - amount,
                                total: account.total - amount,
                                ..account
                            };
                            self.store.save_account(updated);
                            self.store.save_transaction(*txn);
                        }
                    },
                }
            },
            Transaction::Dispute { client, tx } => {
                let amount = deposit_amount_of(&*self.store, client, tx);
                if amount > 0 {
                    match self.store.retrieve_account(client) {
                        None => {},
                        Some(account) => {
                            if account.available >= amount {
                                let updated = Account {
                                    available: account.available - amount,
                                    held: account.held + amount,
                                    ..account
                                };
                                self.store.save_account(updated);
                                self.store.save_transaction(*txn);
                            }
                        },
                    }
                }
            },
            Transaction::Resolve { client, tx } => {
                if self.store.has_disputes(client, tx) {
                    let amount = deposit_amount_of(&*self.store, client, tx);
                    if amount > 0 {
                        match self.store.retrieve_account(client) {
                            None => {},
                            Some(account) => {
                                if account.held >= amount {
                                    let updated = Account {
                                        available: account.available + amount,
                                        held: account.held - amount,
                                        ..account
                                    };
                                    self.store.save_account(updated);
                                    self.store.save_transaction(*txn);
                                }
                            },
                        }
                    }
                }
            },
            Transaction::Chargeback { client, tx } => {
                if self.store.has_disputes(client, tx) {
                    let amount = deposit_amount_of(&*self.store, client, tx);
                    if amount > 0 {
                        match self.store.retrieve_account(client) {
                            None => {},
                            Some(account) => {
                                if account.held >= amount {
                                    let updated = Account {
                                        held: account.held - amount,
                                        total: account.total - amount,
                                        locked: true,
                                        ..account
                                    };
                                    self.store.save_account(updated);
                                    self.store.save_transaction(*txn);
                                }
                            },
                        }
                    }
                }
            },
        }
    }
}

} // verus!
