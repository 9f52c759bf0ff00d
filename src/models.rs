use vstd::prelude::*;

verus! {

/// One record of the input stream, already typed.
///
/// Amounts are fixed-point: one currency unit is 10,000.
#[derive(Clone, Copy, Debug, PartialEq, Eq, Structural)]
pub enum Transaction {
    Deposit { client: u16, tx: u32, amount: u128 },
    Withdrawal { client: u16, tx: u32, amount: u128 },
    Dispute { client: u16, tx: u32 },
    Resolve { client: u16, tx: u32 },
    Chargeback { client: u16, tx: u32 },
}

impl Transaction {
    /// The client that the transaction names.
    pub open spec fn client_of(self) -> u16 {
        match self {
            Transaction::Deposit { client, .. } => client,
            Transaction::Withdrawal { client, .. } => client,
            Transaction::Dispute { client, .. } => client,
            Transaction::Resolve { client, .. } => client,
            Transaction::Chargeback { client, .. } => client,
        }
    }
}

/// The balances of one client.
#[derive(Clone, Copy, Debug, PartialEq, Eq, Structural)]
pub struct Account {
    pub client: u16,
    pub available: u128,
    pub held: u128,
    pub total: u128,
    pub locked: bool,
}

impl Account {
    /// The record of a client that has not been seen before.
    pub open spec fn fresh(client: u16) -> Account {
        Account { client, available: 0, held: 0, total: 0, locked: false }
    }

    /// The total is the sum of what is available and what is held.
    pub open spec fn balanced(self) -> bool {
        self.total == self.available + self.held
    }
}

/// Each account of a store is filed under its own client.
pub open spec fn accounts_keyed_by_client(accounts: Map<u16, Account>) -> bool {
    forall|c: u16| #[trigger] accounts.contains_key(c) ==> accounts[c].client == c
}

/// The accounts of a store all balance, and each is filed under its own client.
pub open spec fn accounts_consistent(accounts: Map<u16, Account>) -> bool {
    forall|c: u16|
        #[trigger] accounts.contains_key(c) ==> accounts[c].client == c && accounts[c].balanced()
}

/// The ledger once `t` is recorded: deposits and withdrawals are filed under
/// `(client, tx)`, replacing what was there; nothing else enters it.
pub open spec fn ledger_after(
    ledger: Map<(u16, u32), Transaction>,
    t: Transaction,
) -> Map<(u16, u32), Transaction> {
    match t {
        Transaction::Deposit { client, tx, .. } => ledger.insert((client, tx), t),
        Transaction::Withdrawal { client, tx, .. } => ledger.insert((client, tx), t),
        _ => ledger,
    }
}

/// The open disputes once `t` is recorded: a dispute opens one on its key, a
/// resolve or a chargeback closes the one on its key.
pub open spec fn disputes_after(disputes: Set<(u16, u32)>, t: Transaction) -> Set<(u16, u32)> {
    match t {
        Transaction::Dispute { client, tx } => disputes.insert((client, tx)),
        Transaction::Resolve { client, tx } => disputes.remove((client, tx)),
        Transaction::Chargeback { client, tx } => disputes.remove((client, tx)),
        _ => disputes,
    }
}

/// Where accounts and past transactions are kept.
///
/// The store is described by three values: the accounts by client, the
/// deposits and withdrawals by `(client, tx)`, and the set of `(client, tx)`
/// keys that are under dispute.
pub trait TransactionStore {
    spec fn accounts(&self) -> Map<u16, Account>;

    spec fn transactions(&self) -> Map<(u16, u32), Transaction>;

    spec fn disputes(&self) -> Set<(u16, u32)>;

    /// The account of `client`, if one was ever saved.
    fn retrieve_account(&self, client: u16) -> (r: Option<Account>)
        ensures
            r == (if self.accounts().contains_key(client) {
                Some(self.accounts()[client])
            } else {
                None
            }),
    ;

    /// Files `account` under its client, replacing what was there.
    fn save_account(&mut self, account: Account)
        ensures
            final(self).accounts() == old(self).accounts().insert(account.client, account),
            final(self).transactions() == old(self).transactions(),
            final(self).disputes() == old(self).disputes(),
    ;

    /// The deposit or withdrawal saved under `(client, tx)`, if any.
    fn retrieve_transaction(&self, client: u16, tx: u32) -> (r: Option<Transaction>)
        ensures
            r == (if self.transactions().contains_key((client, tx)) {
                Some(self.transactions()[(client, tx)])
            } else {
                None
            }),
    ;

    /// Records a transaction. Deposits and withdrawals go to the ledger; a
    /// dispute opens a dispute on its key; a resolve or a chargeback closes it.
    fn save_transaction(&mut self, transaction: Transaction)
        ensures
            final(self).accounts() == old(self).accounts(),
            final(self).transactions() == ledger_after(old(self).transactions(), transaction),
            final(self).disputes() == disputes_after(old(self).disputes(), transaction),
    ;

    /// Whether `(client, tx)` is under dispute now.
    fn has_disputes(&self, client: u16, tx: u32) -> (r: bool)
        ensures
            r == self.disputes().contains((client, tx)),
    ;

    /// Every account, in increasing order of client.
    fn retrieve_all_accounts(&self) -> (r: Vec<Account>)
        requires
            accounts_keyed_by_client(self.accounts()),
        ensures
            forall|i: int|
                0 <= i < r.len() ==> #[trigger] self.accounts().contains_key(r[i].client)
                    && self.accounts()[r[i].client] == r[i],
            forall|i: int, j: int| 0 <= i < j < r.len() ==> r[i].client < r[j].client,
            forall|c: u16|
                #[trigger] self.accounts().contains_key(c) ==> exists|i: int|
                    0 <= i < r.len() && #[trigger] r[i].client == c,
    ;
}

} // verus!
