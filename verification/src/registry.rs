use std::collections::HashMap;
use vstd::prelude::*;
use vstd::std_specs::hash::*;
use vstd::std_specs::iter::IteratorSpec;
use crate::account::{Account, AccountState, AccountView, apply, shows, verdict};
use crate::transaction::{Error, Outcome, Transaction};

verus! {

/// The account that a record for `client` meets: the one on file, or a
/// fresh one where the client is not known yet.
pub open spec fn opened(accounts: Map<u16, AccountView>, client: u16) -> AccountView {
    if accounts.contains_key(client) {
        accounts[client]
    } else {
        AccountView::empty(client)
    }
}

/// The accounts after `t` has been routed to the account of its client.
pub open spec fn routed(accounts: Map<u16, AccountView>, t: Transaction) -> Map<u16, AccountView> {
    accounts.insert(t.client, apply(opened(accounts, t.client), t))
}

/// All accounts of a run, by client.
pub struct Registry {
    accounts: HashMap<u16, Account>,
}

impl View for Registry {
    type V = Map<u16, AccountView>;

    closed spec fn view(&self) -> Map<u16, AccountView> {
        self.accounts@.map_values(|a: Account| a@)
    }
}

impl Registry {
    /// Every account on file is consistent and is filed under its own client.
    pub open spec fn wf(&self) -> bool {
        forall|client: u16| #[trigger]
            self@.contains_key(client) ==> self@[client].consistent() && self@[client].id == client
    }

    /// A registry that knows no client.
    pub fn new() -> (registry: Registry)
        ensures
            registry.wf(),
            registry@ == Map::<u16, AccountView>::empty(),
    {
        let registry = Registry { accounts: HashMap::new() };
        assert(registry@ =~= Map::<u16, AccountView>::empty());
        registry
    }

    /// Applies `cur_tx` to the account of its client, which is opened first
    /// where the client is new, and hands back what the account reported.
    /// A rejected record leaves every balance as it was; the account of a
    /// new client stays on file all the same.
    pub fn route(&mut self, cur_tx: &Transaction) -> (r: Result<Outcome, Error>)
        requires
            old(self).wf(),
        ensures
            final(self).wf(),
            final(self)@ == routed(old(self)@, *cur_tx),
            r == verdict(opened(old(self)@, cur_tx.client), *cur_tx),
    {
        broadcast use group_hash_axioms;

        let account = self.accounts.entry(cur_tx.client).or_insert(Account::new(cur_tx.client));
        let r = account.process(cur_tx);
        assert(self@ =~= routed(old(self)@, *cur_tx));
        r
    }

    /// The state of every account on file, one entry for each client, in no
    /// particular order.
    pub fn snapshot(&self) -> (states: Vec<AccountState>)
        requires
            self.wf(),
        ensures
            states@.len() == self@.dom().len(),
            forall|i: int|
                0 <= i < states@.len() ==> self@.contains_key(#[trigger] states@[i].client) && shows(
                    states@[i],
                    self@[states@[i].client],
                ),
            forall|i: int|
                0 <= i < states@.len() ==> (#[trigger] states@[i]).available == states@[i].total
                    - states@[i].held && states@[i].held >= 0,
            forall|i: int, j: int|
                0 <= i < j < states@.len() ==> states@[i].client != states@[j].client,
            forall|client: u16| #[trigger]
                self@.contains_key(client) ==> exists|i: int|
                    0 <= i < states@.len() && states@[i].client == client,
    {
        broadcast use group_hash_axioms;

        let mut states: Vec<AccountState> = Vec::new();
        for entry in it: self.accounts.iter()
            invariant
                self.wf(),
                it.seq() == self.accounts.iter().remaining(),
                it.seq().no_duplicates(),
                states@.len() == it.index(),
                forall|i: int|
                    0 <= i < states@.len() ==> (#[trigger] states@[i]).client == *it.seq()[i].0
                        && shows(states@[i], (*it.seq()[i].1)@) && states@[i].available
                        == states@[i].total - states@[i].held && states@[i].held >= 0,
        {
            let (client, account) = entry;
            assert(self.accounts@.contains_key(*client));
            assert(self@.contains_key(*client));
            states.push(account.state());
        }
        proof {
            let seq = self.accounts.iter().remaining();
            assert(self@.dom() =~= self.accounts@.dom());
            assert forall|i: int, j: int| 0 <= i < j < states@.len() implies states@[i].client
                != states@[j].client by {
                assert(self.accounts@[*seq[i].0] == *seq[i].1);
                assert(self.accounts@[*seq[j].0] == *seq[j].1);
                assert(seq[i] != seq[j]);
            }
            assert forall|client: u16| #[trigger] self@.contains_key(client) implies exists|i: int|
                0 <= i < states@.len() && states@[i].client == client by {
                assert(self.accounts@.contains_key(client));
                let pair = (&client, &self.accounts@[client]);
                assert(seq.contains(pair));
                let i = choose|i: int| 0 <= i < seq.len() && seq[i] == pair;
                assert(states@[i].client == client);
            }
        }
        states
    }
}

} // verus!
