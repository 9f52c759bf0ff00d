use std::collections::HashMap;
use std::collections::HashSet;
use vstd::prelude::*;

use crate::models::accounts_keyed_by_client;
use crate::models::Account;
use crate::models::Transaction;
use crate::models::TransactionStore;

verus! {

broadcast use vstd::std_specs::hash::group_hash_axioms;

/// The number under which `(client, tx)` is filed: the client in the high
/// 32 bits, the transaction id in the low ones.
pub open spec fn key_of(client: u16, tx: u32) -> u64 {
    (client as int * 0x1_0000_0000 + tx as int) as u64
}

/// Two `(client, tx)` pairs share a key only if they are the same pair.
pub proof fn lemma_key_of_injective(c1: u16, t1: u32, c2: u16, t2: u32)
    ensures
        key_of(c1, t1) == key_of(c2, t2) ==> c1 == c2 && t1 == t2,
{
    let a = c1 as int * 0x1_0000_0000 + t1 as int;
    let b = c2 as int * 0x1_0000_0000 + t2 as int;
    assert(0 <= a < 0x1_0000_0000_0000) by (nonlinear_arith)
        requires
            a == c1 as int * 0x1_0000_0000 + t1 as int,
            c1 < 0x1_0000,
            t1 < 0x1_0000_0000,
    ;
    assert(0 <= b < 0x1_0000_0000_0000) by (nonlinear_arith)
        requires
            b == c2 as int * 0x1_0000_0000 + t2 as int,
            c2 < 0x1_0000,
            t2 < 0x1_0000_0000,
    ;
    if a == b {
        assert(c1 == c2 && t1 == t2) by (nonlinear_arith)
            requires
                a == c1 as int * 0x1_0000_0000 + t1 as int,
                b == c2 as int * 0x1_0000_0000 + t2 as int,
                a == b,
                0 <= t1 < 0x1_0000_0000,
                0 <= t2 < 0x1_0000_0000,
        ;
    }
}

fn ledger_key(client: u16, tx: u32) -> (k: u64)
    ensures
        k == key_of(client, tx),
{
    assert(client as int * 0x1_0000_0000 + (tx as int) < 0x1_0000_0000_0000) by (nonlinear_arith)
        requires
            client < 0x1_0000,
            tx < 0x1_0000_0000,
    ;
    (client as u64) * 0x1_0000_0000 + (tx as u64)
}

/// A store held in memory for the length of one run.
pub struct MemoryTransactionStore {
    accounts: HashMap<u16, Account>,
    transactions: HashMap<u64, Transaction>,
    disputes: HashSet<u64>,
}

impl MemoryTransactionStore {
    /// An empty store.
    pub fn new() -> (r: Self)
        ensures
            r.accounts() == Map::<u16, Account>::empty(),
            r.transactions() == Map::<(u16, u32), Transaction>::empty(),
            r.disputes() == Set::<(u16, u32)>::empty(),
    {
        let r = MemoryTransactionStore {
            accounts: HashMap::new(),
            transactions: HashMap::new(),
            disputes: HashSet::new(),
        };
        assert(r.transactions() =~= Map::<(u16, u32), Transaction>::empty());
        assert(r.disputes() =~= Set::<(u16, u32)>::empty());
        r
    }
}

impl Default for MemoryTransactionStore {
    fn default() -> (r: Self)
        ensures
            r.accounts() == Map::<u16, Account>::empty(),
            r.transactions() == Map::<(u16, u32), Transaction>::empty(),
            r.disputes() == Set::<(u16, u32)>::empty(),
    {
        MemoryTransactionStore::new()
    }
}

impl TransactionStore for MemoryTransactionStore {
    closed spec fn accounts(&self) -> Map<u16, Account> {
        self.accounts@
    }

    closed spec fn transactions(&self) -> Map<(u16, u32), Transaction> {
        Map::new(
            |k: (u16, u32)| self.transactions@.contains_key(key_of(k.0, k.1)),
            |k: (u16, u32)| self.transactions@[key_of(k.0, k.1)],
        )
    }

    closed spec fn disputes(&self) -> Set<(u16, u32)> {
        Set::new(|k: (u16, u32)| self.disputes@.contains(key_of(k.0, k.1)))
    }

    fn retrieve_account(&self, client: u16) -> (r: Option<Account>) {
        match self.accounts.get(&client) {
            Some(a) => Some(*a),
            None => None,
        }
    }

    fn save_account(&mut self, account: Account) {
        self.accounts.insert(account.client, account);
    }

    fn retrieve_transaction(&self, client: u16, tx: u32) -> (r: Option<Transaction>) {
        let k = ledger_key(client, tx);
        match self.transactions.get(&k) {
            Some(t) => Some(*t),
            None => None,
        }
    }

    fn save_transaction(&mut self, transaction: Transaction) {
        let ghost before = *self;
        match transaction {
            Transaction::Deposit { client, tx, .. } | Transaction::Withdrawal { client, tx, .. } => {
                let k = ledger_key(client, tx);
                self.transactions.insert(k, transaction);
                assert forall|p: (u16, u32)| true implies (#[trigger] self.transactions().contains_key(p)
                    == before.transactions().insert((client, tx), transaction).contains_key(p)) by {
                    lemma_key_of_injective(p.0, p.1, client, tx);
                }
                assert forall|p: (u16, u32)| #[trigger] self.transactions().contains_key(p) implies
                    self.transactions()[p] == before.transactions().insert((client, tx), transaction)[p] by {
                    lemma_key_of_injective(p.0, p.1, client, tx);
                }
                assert(self.transactions() =~= before.transactions().insert((client, tx), transaction));
                assert(self.disputes() =~= before.disputes());
            },
            Transaction::Dispute { client, tx } => {
                let k = ledger_key(client, tx);
                self.disputes.insert(k);
                assert forall|p: (u16, u32)| true implies (#[trigger] self.disputes().contains(p)
                    == before.disputes().insert((client, tx)).contains(p)) by {
                    lemma_key_of_injective(p.0, p.1, client, tx);
                }
                assert(self.disputes() =~= before.disputes().insert((client, tx)));
                assert(self.transactions() =~= before.transactions());
            },
            Transaction::Resolve { client, tx } | Transaction::Chargeback { client, tx } => {
                let k = ledger_key(client, tx);
                self.disputes.remove(&k);
                assert forall|p: (u16, u32)| true implies (#[trigger] self.disputes().contains(p)
                    == before.disputes().remove((client, tx)).contains(p)) by {
                    lemma_key_of_injective(p.0, p.1, client, tx);
                }
                assert(self.disputes() =~= before.disputes().remove((client, tx)));
                assert(self.transactions() =~= before.transactions());
            },
        }
    }

    fn has_disputes(&self, client: u16, tx: u32) -> (r: bool) {
        let k = ledger_key(client, tx);
        self.disputes.contains(&k)
    }

    fn retrieve_all_accounts(&self) -> (r: Vec<Account>) {
        let mut r: Vec<Account> = Vec::new();
        let mut i: u32 = 0;
        while i <= 0xffff
            invariant
                i <= 0x1_0000,
                accounts_keyed_by_client(self.accounts()),
                forall|k: int|
                    0 <= k < r.len() ==> self.accounts().contains_key(#[trigger] r[k].client)
                        && self.accounts()[r[k].client] == r[k] && r[k].client < i,
                forall|k: int, j: int| 0 <= k < j < r.len() ==> r[k].client < r[j].client,
                forall|c: u16|
                    c < i && #[trigger] self.accounts().contains_key(c) ==> exists|k: int|
                        0 <= k < r.len() && #[trigger] r[k].client == c,
            decreases 0x1_0000 - i,
        {
            let client = i as u16;
            match self.accounts.get(&client) {
                Some(a) => {
                    assert(self.accounts().contains_key(client));
                    let ghost prev = r@;
                    r.push(*a);
                    assert forall|c: u16|
                        c < i + 1 && #[trigger] self.accounts().contains_key(c) implies exists|k: int|
                            0 <= k < r.len() && #[trigger] r[k].client == c by {
                        if c == client {
                            assert(r[r.len() - 1].client == c);
                        } else {
                            let k = choose|k: int| 0 <= k < prev.len() && #[trigger] prev[k].client == c;
                            assert(r[k].client == c);
                        }
                    }
                },
                None => {},
            }
            i = i + 1;
        }
        r
    }
}

} // verus!
