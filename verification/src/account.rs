use vstd::prelude::*;
use crate::transaction::{Error, IgnoreReason, Outcome, Transaction, TransactionType};
use crate::history::{
    ProcessedTransaction, amount_in_state, amount_total, amounts_positive, entry_of,
    is_first_match, lookup, lemma_lookup_absent, lemma_lookup_found, lemma_push_sums,
    lemma_total_bounded, lemma_two_states_within_total, lemma_update_sums,
};

verus! {

/// A snapshot of one account: what the client may withdraw, what open
/// disputes freeze, the sum of both, and whether a chargeback has locked it.
/// The three balances are counted in ten-thousandths of a currency unit.
#[derive(Debug, Clone, Copy, PartialEq, Eq, Structural)]
pub struct AccountState {
    pub client: u16,
    pub available: i128,
    pub held: i128,
    pub total: i128,
    pub locked: bool,
}

/// The mathematical content of an account.
///
/// `deposited` and `withdrawn` are the sums of all deposits and withdrawals
/// that the account has accepted since it was opened; the account itself
/// stores only what is left of them in `total`.
pub struct AccountView {
    pub id: u16,
    pub total: int,
    pub held: int,
    pub locked: bool,
    pub history: Seq<ProcessedTransaction>,
    pub deposited: int,
    pub withdrawn: int,
}

impl AccountView {
    /// An account to which nothing has been applied yet.
    pub open spec fn empty(id: u16) -> AccountView {
        AccountView {
            id,
            total: 0,
            held: 0,
            locked: false,
            history: Seq::empty(),
            deposited: 0,
            withdrawn: 0,
        }
    }

    /// Funds that the client may withdraw now.
    pub open spec fn available(self) -> int {
        self.total - self.held
    }

    /// What ties the balances to the history: held funds are the amounts
    /// under dispute, the total is what was deposited less what was withdrawn
    /// or charged back, and no more was ever withdrawn than was deposited.
    pub open spec fn consistent(self) -> bool {
        &&& amounts_positive(self.history)
        &&& self.held == amount_in_state(self.history, TransactionType::Dispute)
        &&& self.total == self.deposited - self.withdrawn - amount_in_state(
            self.history,
            TransactionType::Chargeback,
        )
        &&& self.deposited + self.withdrawn == amount_total(self.history)
        &&& 0 <= self.withdrawn <= self.deposited
    }

    /// The account after an accepted deposit.
    pub open spec fn credit(self, t: Transaction) -> AccountView {
        AccountView {
            total: self.total + t.amount.unwrap(),
            deposited: self.deposited + t.amount.unwrap(),
            history: self.history.push(entry_of(t)),
            ..self
        }
    }

    /// The account after an accepted withdrawal.
    pub open spec fn debit(self, t: Transaction) -> AccountView {
        AccountView {
            total: self.total - t.amount.unwrap(),
            withdrawn: self.withdrawn + t.amount.unwrap(),
            history: self.history.push(entry_of(t)),
            ..self
        }
    }

    /// The account after the entry at `i` has come under dispute.
    pub open spec fn open_dispute(self, i: int) -> AccountView {
        AccountView {
            held: self.held + self.history[i].amount,
            history: self.history.update(i, self.history[i].with_state(TransactionType::Dispute)),
            ..self
        }
    }

    /// The account after the dispute on the entry at `i` has been resolved.
    pub open spec fn settle(self, i: int) -> AccountView {
        AccountView {
            held: self.held - self.history[i].amount,
            history: self.history.update(i, self.history[i].with_state(TransactionType::Resolve)),
            ..self
        }
    }

    /// The account after the disputed entry at `i` has been charged back.
    pub open spec fn charge_back(self, i: int) -> AccountView {
        AccountView {
            held: self.held - self.history[i].amount,
            total: self.total - self.history[i].amount,
            locked: true,
            history: self.history.update(
                i,
                self.history[i].with_state(TransactionType::Chargeback),
            ),
            ..self
        }
    }
}

/// `s` is the snapshot of `a`.
pub open spec fn shows(s: AccountState, a: AccountView) -> bool {
    &&& s.client == a.id
    &&& s.available == a.available()
    &&& s.held == a.held
    &&& s.total == a.total
    &&& s.locked == a.locked
}

/// A dispute may be opened on a transaction that has not been disputed yet,
/// so that no amount is ever held twice.
pub open spec fn disputable(state: TransactionType) -> bool {
    state == TransactionType::Deposit || state == TransactionType::Withdrawal
}

/// What a dispute, resolve or chargeback on `tx` meets in the history: the
/// position of the entry it acts on, or the reason why it acts on none.
pub open spec fn referenced(
    h: Seq<ProcessedTransaction>,
    kind: TransactionType,
    tx: u32,
) -> Result<int, IgnoreReason> {
    match lookup(h, tx) {
        None => Err(IgnoreReason::NotFound),
        Some(i) => {
            let admitted = if kind == TransactionType::Dispute {
                disputable(h[i].latest_state)
            } else {
                h[i].latest_state == TransactionType::Dispute
            };
            if admitted {
                Ok(i)
            } else {
                Err(IgnoreReason::WrongState)
            }
        },
    }
}

/// What applying `t` to `a` reports.
pub open spec fn verdict(a: AccountView, t: Transaction) -> Result<Outcome, Error> {
    match t.kind {
        TransactionType::Deposit | TransactionType::Withdrawal => match t.amount {
            None => Err(Error::MissingAmount),
            Some(amount) => if amount <= 0 {
                Err(Error::IncorrectAmount)
            } else if t.kind == TransactionType::Withdrawal && a.available() < amount {
                Err(Error::InsufficientBalance)
            } else {
                Ok(Outcome::Applied)
            },
        },
        _ => match referenced(a.history, t.kind, t.tx) {
            Ok(_) => Ok(Outcome::Applied),
            Err(reason) => Ok(Outcome::Ignored(reason)),
        },
    }
}

/// The account that applying `t` to `a` leaves: changed only where the
/// verdict is `Applied`.
pub open spec fn apply(a: AccountView, t: Transaction) -> AccountView {
    if verdict(a, t) == Ok::<Outcome, Error>(Outcome::Applied) {
        match t.kind {
            TransactionType::Deposit => a.credit(t),
            TransactionType::Withdrawal => a.debit(t),
            TransactionType::Dispute => a.open_dispute(referenced(a.history, t.kind, t.tx).unwrap()),
            TransactionType::Resolve => a.settle(referenced(a.history, t.kind, t.tx).unwrap()),
            TransactionType::Chargeback => a.charge_back(
                referenced(a.history, t.kind, t.tx).unwrap(),
            ),
        }
    } else {
        a
    }
}

/// In a consistent account of a length that a machine can hold, the held
/// funds, the total and the available funds all lie within the sum of the
/// history's amounts, which fits in 128 bits.
pub proof fn lemma_balances_in_range(a: AccountView)
    requires
        a.consistent(),
        a.history.len() <= usize::MAX,
    ensures
        0 <= a.held <= amount_total(a.history),
        -amount_total(a.history) <= a.total <= amount_total(a.history),
        -amount_total(a.history) <= a.available() <= amount_total(a.history),
        amount_total(a.history) <= i128::MAX,
{
    lemma_two_states_within_total(
        a.history,
        TransactionType::Dispute,
        TransactionType::Chargeback,
    );
    lemma_total_bounded(a.history);
    let n = a.history.len() as int;
    assert(n * i64::MAX <= 0xffff_ffff_ffff_ffff * 0x7fff_ffff_ffff_ffff) by (nonlinear_arith)
        requires
            0 <= n <= 0xffff_ffff_ffff_ffff,
            i64::MAX == 0x7fff_ffff_ffff_ffff,
    ;
}

/// One client's account: its balances, its lock, and the deposits and
/// withdrawals that later disputes may refer to.
pub struct Account {
    id: u16,
    balance: i128,
    held: i128,
    locked: bool,
    history: Vec<ProcessedTransaction>,
    deposited: Ghost<int>,
    withdrawn: Ghost<int>,
}

impl View for Account {
    type V = AccountView;

    closed spec fn view(&self) -> AccountView {
        AccountView {
            id: self.id,
            total: self.balance as int,
            held: self.held as int,
            locked: self.locked,
            history: self.history@,
            deposited: self.deposited@,
            withdrawn: self.withdrawn@,
        }
    }
}

impl Account {
    /// The invariant of every account that this library hands out.
    pub open spec fn wf(&self) -> bool {
        self@.consistent()
    }

    /// The balances of a well-formed account fit the machine integers that
    /// hold them, with room for the difference of any two.
    proof fn lemma_in_range(&self)
        requires
            self.wf(),
        ensures
            self@.history.len() <= usize::MAX,
            0 <= self@.held <= amount_total(self@.history),
            -amount_total(self@.history) <= self@.total <= amount_total(self@.history),
            -amount_total(self@.history) <= self@.available() <= amount_total(self@.history),
            amount_total(self@.history) <= i128::MAX,
    {
        assert(self.history.len() == self.history@.len());
        lemma_balances_in_range(self@);
    }

    /// Opens the account of client `id`, empty and unlocked.
    pub fn new(id: u16) -> (account: Account)
        ensures
            account.wf(),
            account@ == AccountView::empty(id),
    {
        Account {
            id,
            balance: 0,
            held: 0,
            locked: false,
            history: Vec::new(),
            deposited: Ghost(0),
            withdrawn: Ghost(0),
        }
    }

    /// The client that owns the account.
    pub fn id(&self) -> (id: u16)
        ensures
            id == self@.id,
    {
        self.id
    }

    /// The account's balances and lock at this moment.
    pub fn state(&self) -> (s: AccountState)
        requires
            self.wf(),
        ensures
            shows(s, self@),
            s.available == s.total - s.held,
            s.held >= 0,
    {
        proof {
            self.lemma_in_range();
        }
        AccountState {
            client: self.id,
            available: self.balance - self.held,
            held: self.held,
            total: self.balance,
            locked: self.locked,
        }
    }

    /// Funds that the client may withdraw now.
    pub fn available(&self) -> (funds: i128)
        requires
            self.wf(),
        ensures
            funds == self@.available(),
    {
        proof {
            self.lemma_in_range();
        }
        self.balance - self.held
    }

    /// Position of the earliest entry of the history with id `tx`.
    fn find_transaction(&self, tx: u32) -> (found: Option<usize>)
        ensures
            match found {
                Some(i) => is_first_match(self@.history, tx, i as int),
                None => true,
            },
            lookup(self@.history, tx) == match found {
                Some(i) => Some(i as int),
                None => None,
            },
    {
        let mut i: usize = 0;
        while i < self.history.len()
            invariant
                i <= self.history.len(),
                forall|j: int| 0 <= j < i ==> (#[trigger] self.history@[j]).tx != tx,
            decreases self.history.len() - i,
        {
            if self.history[i].tx == tx {
                proof {
                    lemma_lookup_found(self.history@, tx, i as int);
                }
                return Some(i);
            }
            i = i + 1;
        }
        proof {
            lemma_lookup_absent(self.history@, tx);
        }
        None
    }

    /// Moves the entry at `i` to `state`.
    fn set_state(&mut self, i: usize, state: TransactionType)
        requires
            i < old(self)@.history.len(),
        ensures
            final(self)@ == (AccountView {
                history: old(self)@.history.update(
                    i as int,
                    old(self)@.history[i as int].with_state(state),
                ),
                ..old(self)@
            }),
    {
        let entry = self.history[i];
        self.history.set(
            i,
            ProcessedTransaction { tx: entry.tx, amount: entry.amount, latest_state: state },
        );
    }

    /// Applies one record to the account.
    ///
    /// A deposit or withdrawal without an amount, with an amount that is not
    /// positive, or a withdrawal of more than is available, is rejected with
    /// an error. A dispute, resolve or chargeback that refers to no entry of
    /// the history, or to one in a state that does not admit it, is ignored
    /// and says why. Either way the account stays as it was.
    pub fn process(&mut self, cur_tx: &Transaction) -> (r: Result<Outcome, Error>)
        requires
            old(self).wf(),
        ensures
            final(self).wf(),
            final(self)@ == apply(old(self)@, *cur_tx),
            r == verdict(old(self)@, *cur_tx),
    {
        proof {
            self.lemma_in_range();
        }
        match cur_tx.kind {
            TransactionType::Deposit => {
                let am = match cur_tx.amount {
                    Some(am) => am,
                    None => {
                        return Err(Error::MissingAmount);
                    },
                };
                if am <= 0 {
                    return Err(Error::IncorrectAmount);
                }
                self.history.push(ProcessedTransaction::from(cur_tx));
                proof {
                    lemma_push_sums(old(self)@.history, entry_of(*cur_tx), TransactionType::Dispute);
                    lemma_push_sums(
                        old(self)@.history,
                        entry_of(*cur_tx),
                        TransactionType::Chargeback,
                    );
                    lemma_total_bounded(self.history@);
                    assert(self.history.len() == self.history@.len());
                    let n = self.history@.len() as int;
                    assert(n * i64::MAX <= 0xffff_ffff_ffff_ffff * 0x7fff_ffff_ffff_ffff)
                        by (nonlinear_arith)
                        requires
                            0 <= n <= 0xffff_ffff_ffff_ffff,
                            i64::MAX == 0x7fff_ffff_ffff_ffff,
                    ;
                }
                self.balance = self.balance + am as i128;
                self.deposited = Ghost(self.deposited@ + am);
                assert(self@ =~= old(self)@.credit(*cur_tx));
            },
            TransactionType::Withdrawal => {
                let am = match cur_tx.amount {
                    Some(am) => am,
                    None => {
                        return Err(Error::MissingAmount);
                    },
                };
                if am <= 0 {
                    return Err(Error::IncorrectAmount);
                }
                if self.available() < am as i128 {
                    return Err(Error::InsufficientBalance);
                }
                self.balance = self.balance - am as i128;
                self.history.push(ProcessedTransaction::from(cur_tx));
                self.withdrawn = Ghost(self.withdrawn@ + am);
                proof {
                    lemma_two_states_within_total(
                        old(self)@.history,
                        TransactionType::Dispute,
                        TransactionType::Chargeback,
                    );
                    lemma_push_sums(old(self)@.history, entry_of(*cur_tx), TransactionType::Dispute);
                    lemma_push_sums(
                        old(self)@.history,
                        entry_of(*cur_tx),
                        TransactionType::Chargeback,
                    );
                }
                assert(self@ =~= old(self)@.debit(*cur_tx));
            },
            TransactionType::Dispute => {
                let i = match self.find_transaction(cur_tx.tx) {
                    Some(i) => i,
                    None => {
                        return Ok(Outcome::Ignored(IgnoreReason::NotFound));
                    },
                };
                let entry = self.history[i];
                match entry.latest_state {
                    TransactionType::Deposit | TransactionType::Withdrawal => {},
                    _ => {
                        return Ok(Outcome::Ignored(IgnoreReason::WrongState));
                    },
                }
                proof {
                    let to = TransactionType::Dispute;
                    lemma_update_sums(self@.history, i as int, to, TransactionType::Dispute);
                    lemma_update_sums(self@.history, i as int, to, TransactionType::Chargeback);
                    lemma_two_states_within_total(
                        self@.history.update(i as int, self@.history[i as int].with_state(to)),
                        TransactionType::Dispute,
                        TransactionType::Chargeback,
                    );
                }
                self.set_state(i, TransactionType::Dispute);
                self.held = self.held + entry.amount as i128;
                assert(self@ =~= old(self)@.open_dispute(i as int));
            },
            TransactionType::Resolve => {
                let i = match self.find_transaction(cur_tx.tx) {
                    Some(i) => i,
                    None => {
                        return Ok(Outcome::Ignored(IgnoreReason::NotFound));
                    },
                };
                let entry = self.history[i];
                match entry.latest_state {
                    TransactionType::Dispute => {},
                    _ => {
                        return Ok(Outcome::Ignored(IgnoreReason::WrongState));
                    },
                }
                proof {
                    let to = TransactionType::Resolve;
                    lemma_update_sums(self@.history, i as int, to, TransactionType::Dispute);
                    lemma_update_sums(self@.history, i as int, to, TransactionType::Chargeback);
                }
                self.set_state(i, TransactionType::Resolve);
                self.held = self.held - entry.amount as i128;
                assert(self@ =~= old(self)@.settle(i as int));
            },
            TransactionType::Chargeback => {
                let i = match self.find_transaction(cur_tx.tx) {
                    Some(i) => i,
                    None => {
                        return Ok(Outcome::Ignored(IgnoreReason::NotFound));
                    },
                };
                let entry = self.history[i];
                match entry.latest_state {
                    TransactionType::Dispute => {},
                    _ => {
                        return Ok(Outcome::Ignored(IgnoreReason::WrongState));
                    },
                }
                proof {
                    let to = TransactionType::Chargeback;
                    lemma_update_sums(self@.history, i as int, to, TransactionType::Dispute);
                    lemma_update_sums(self@.history, i as int, to, TransactionType::Chargeback);
                    lemma_two_states_within_total(
                        self@.history.update(i as int, self@.history[i as int].with_state(to)),
                        TransactionType::Dispute,
                        TransactionType::Chargeback,
                    );
                }
                self.set_state(i, TransactionType::Chargeback);
                self.held = self.held - entry.amount as i128;
                self.balance = self.balance - entry.amount as i128;
                self.locked = true;
                assert(self@ =~= old(self)@.charge_back(i as int));
            },
        }
        Ok(Outcome::Applied)
    }
}

} // verus!
