use account_ledger::account::{Account, AccountState};
use account_ledger::history::ProcessedTransaction;
use account_ledger::transaction::{Error, IgnoreReason, Outcome, Transaction, TransactionType};

fn record(kind: TransactionType, tx: u32, amount: Option<i64>) -> Transaction {
    Transaction {
        kind,
        client: 1,
        tx,
        amount,
    }
}

fn deposit(tx: u32, amount: i64) -> Transaction {
    record(TransactionType::Deposit, tx, Some(amount))
}

fn withdrawal(tx: u32, amount: i64) -> Transaction {
    record(TransactionType::Withdrawal, tx, Some(amount))
}

fn balances(available: i128, held: i128, total: i128, locked: bool) -> AccountState {
    AccountState {
        client: 1,
        available,
        held,
        total,
        locked,
    }
}

fn account_after(log: &[Transaction]) -> Account {
    let mut a = Account::new(1);
    for t in log {
        let _ = a.process(t);
    }
    a
}

#[test]
fn new_account_is_empty_and_unlocked() {
    let a = Account::new(42);
    assert_eq!(a.id(), 42);
    assert_eq!(
        a.state(),
        AccountState {
            client: 42,
            available: 0,
            held: 0,
            total: 0,
            locked: false,
        }
    );
}

#[test]
fn deposit_adds_exactly_its_amount() {
    let mut a = Account::new(1);
    assert_eq!(a.process(&deposit(1, 12_345)), Ok(Outcome::Applied));
    assert_eq!(a.state(), balances(12_345, 0, 12_345, false));
    assert_eq!(a.process(&deposit(2, 1)), Ok(Outcome::Applied));
    assert_eq!(a.state(), balances(12_346, 0, 12_346, false));
}

#[test]
fn deposit_can_be_disputed_afterwards() {
    let mut a = Account::new(1);
    assert_eq!(a.process(&deposit(8, 70_000)), Ok(Outcome::Applied));
    assert_eq!(
        a.process(&record(TransactionType::Dispute, 8, None)),
        Ok(Outcome::Applied)
    );
    assert_eq!(a.state(), balances(0, 70_000, 70_000, false));
}

#[test]
fn deposit_without_amount_is_rejected() {
    let mut a = account_after(&[deposit(1, 50_000)]);
    assert_eq!(
        a.process(&record(TransactionType::Deposit, 2, None)),
        Err(Error::MissingAmount)
    );
    assert_eq!(a.state(), balances(50_000, 0, 50_000, false));
    assert_eq!(
        a.process(&record(TransactionType::Dispute, 2, None)),
        Ok(Outcome::Ignored(IgnoreReason::NotFound))
    );
}

#[test]
fn deposit_of_zero_or_less_is_rejected() {
    let mut a = account_after(&[deposit(1, 50_000)]);
    assert_eq!(a.process(&deposit(2, 0)), Err(Error::IncorrectAmount));
    assert_eq!(a.process(&deposit(3, -1)), Err(Error::IncorrectAmount));
    assert_eq!(a.process(&deposit(4, i64::MIN)), Err(Error::IncorrectAmount));
    assert_eq!(a.state(), balances(50_000, 0, 50_000, false));
}

#[test]
fn withdrawal_without_amount_is_rejected() {
    let mut a = account_after(&[deposit(1, 50_000)]);
    assert_eq!(
        a.process(&record(TransactionType::Withdrawal, 2, None)),
        Err(Error::MissingAmount)
    );
    assert_eq!(a.process(&withdrawal(3, 0)), Err(Error::IncorrectAmount));
    assert_eq!(a.state(), balances(50_000, 0, 50_000, false));
}

#[test]
fn withdrawal_of_all_available_funds_is_applied() {
    let mut a = account_after(&[deposit(1, 50_000)]);
    assert_eq!(a.process(&withdrawal(2, 50_000)), Ok(Outcome::Applied));
    assert_eq!(a.state(), balances(0, 0, 0, false));
}

#[test]
fn withdrawal_beyond_available_funds_is_rejected() {
    let mut a = account_after(&[deposit(1, 50_000)]);
    assert_eq!(
        a.process(&withdrawal(2, 50_001)),
        Err(Error::InsufficientBalance)
    );
    assert_eq!(a.state(), balances(50_000, 0, 50_000, false));
    assert_eq!(
        a.process(&record(TransactionType::Dispute, 2, None)),
        Ok(Outcome::Ignored(IgnoreReason::NotFound))
    );
}

#[test]
fn withdrawal_cannot_touch_held_funds() {
    let mut a = account_after(&[
        deposit(1, 50_000),
        deposit(2, 30_000),
        record(TransactionType::Dispute, 1, None),
    ]);
    assert_eq!(a.state(), balances(30_000, 50_000, 80_000, false));
    assert_eq!(
        a.process(&withdrawal(3, 30_001)),
        Err(Error::InsufficientBalance)
    );
    assert_eq!(a.process(&withdrawal(4, 30_000)), Ok(Outcome::Applied));
    assert_eq!(a.state(), balances(0, 50_000, 50_000, false));
}

#[test]
fn dispute_on_unknown_transaction_is_ignored() {
    let mut a = account_after(&[deposit(1, 50_000)]);
    assert_eq!(
        a.process(&record(TransactionType::Dispute, 99, None)),
        Ok(Outcome::Ignored(IgnoreReason::NotFound))
    );
    assert_eq!(a.state(), balances(50_000, 0, 50_000, false));
}

#[test]
fn resolve_and_chargeback_on_unknown_transaction_are_ignored() {
    let mut a = account_after(&[deposit(1, 50_000)]);
    assert_eq!(
        a.process(&record(TransactionType::Resolve, 99, None)),
        Ok(Outcome::Ignored(IgnoreReason::NotFound))
    );
    assert_eq!(
        a.process(&record(TransactionType::Chargeback, 99, None)),
        Ok(Outcome::Ignored(IgnoreReason::NotFound))
    );
    assert_eq!(a.state(), balances(50_000, 0, 50_000, false));
}

#[test]
fn resolve_and_chargeback_need_an_open_dispute() {
    let mut a = account_after(&[deposit(1, 50_000)]);
    assert_eq!(
        a.process(&record(TransactionType::Resolve, 1, None)),
        Ok(Outcome::Ignored(IgnoreReason::WrongState))
    );
    assert_eq!(
        a.process(&record(TransactionType::Chargeback, 1, None)),
        Ok(Outcome::Ignored(IgnoreReason::WrongState))
    );
    assert_eq!(a.state(), balances(50_000, 0, 50_000, false));
}

#[test]
fn second_dispute_on_the_same_transaction_is_ignored() {
    let mut a = account_after(&[deposit(1, 50_000), record(TransactionType::Dispute, 1, None)]);
    assert_eq!(a.state(), balances(0, 50_000, 50_000, false));
    assert_eq!(
        a.process(&record(TransactionType::Dispute, 1, None)),
        Ok(Outcome::Ignored(IgnoreReason::WrongState))
    );
    assert_eq!(a.state(), balances(0, 50_000, 50_000, false));
}

#[test]
fn settled_dispute_cannot_be_reopened_or_settled_again() {
    let mut a = account_after(&[
        deposit(1, 50_000),
        record(TransactionType::Dispute, 1, None),
        record(TransactionType::Resolve, 1, None),
    ]);
    assert_eq!(a.state(), balances(50_000, 0, 50_000, false));
    for kind in [
        TransactionType::Dispute,
        TransactionType::Resolve,
        TransactionType::Chargeback,
    ] {
        assert_eq!(
            a.process(&record(kind, 1, None)),
            Ok(Outcome::Ignored(IgnoreReason::WrongState))
        );
        assert_eq!(a.state(), balances(50_000, 0, 50_000, false));
    }
}

#[test]
fn charged_back_transaction_stays_charged_back() {
    let mut a = account_after(&[
        deposit(1, 50_000),
        record(TransactionType::Dispute, 1, None),
        record(TransactionType::Chargeback, 1, None),
    ]);
    assert_eq!(a.state(), balances(0, 0, 0, true));
    for kind in [
        TransactionType::Dispute,
        TransactionType::Resolve,
        TransactionType::Chargeback,
    ] {
        assert_eq!(
            a.process(&record(kind, 1, None)),
            Ok(Outcome::Ignored(IgnoreReason::WrongState))
        );
        assert_eq!(a.state(), balances(0, 0, 0, true));
    }
}

#[test]
fn dispute_scenario() {
    let a = account_after(&[
        deposit(0, 50_000),
        deposit(1, 50_000),
        record(TransactionType::Dispute, 0, None),
    ]);
    assert_eq!(a.state(), balances(50_000, 50_000, 100_000, false));
}

#[test]
fn resolve_scenario() {
    let a = account_after(&[
        deposit(0, 50_000),
        deposit(1, 50_000),
        record(TransactionType::Dispute, 0, None),
        record(TransactionType::Resolve, 0, None),
    ]);
    assert_eq!(a.state(), balances(100_000, 0, 100_000, false));
}

#[test]
fn chargeback_scenario() {
    let a = account_after(&[
        deposit(0, 50_000),
        deposit(1, 50_000),
        record(TransactionType::Dispute, 0, None),
        record(TransactionType::Chargeback, 0, None),
    ]);
    assert_eq!(a.state(), balances(50_000, 0, 50_000, true));
}

#[test]
fn withdrawal_from_fresh_account_scenario() {
    let mut a = Account::new(1);
    assert_eq!(
        a.process(&withdrawal(0, 50_000)),
        Err(Error::InsufficientBalance)
    );
    assert_eq!(a.state(), balances(0, 0, 0, false));
}

#[test]
fn locked_account_still_takes_deposits_and_withdrawals() {
    let mut a = account_after(&[
        deposit(1, 50_000),
        record(TransactionType::Dispute, 1, None),
        record(TransactionType::Chargeback, 1, None),
    ]);
    assert_eq!(a.process(&deposit(2, 30_000)), Ok(Outcome::Applied));
    assert_eq!(a.process(&withdrawal(3, 10_000)), Ok(Outcome::Applied));
    assert_eq!(a.state(), balances(20_000, 0, 20_000, true));
}

#[test]
fn lock_outlives_every_later_record() {
    let mut a = account_after(&[
        deposit(1, 50_000),
        deposit(2, 20_000),
        record(TransactionType::Dispute, 1, None),
        record(TransactionType::Chargeback, 1, None),
    ]);
    let later = [
        deposit(3, 10_000),
        withdrawal(4, 5_000),
        record(TransactionType::Dispute, 2, None),
        record(TransactionType::Resolve, 2, None),
        record(TransactionType::Dispute, 3, None),
        record(TransactionType::Chargeback, 3, None),
        withdrawal(5, 1_000_000),
        record(TransactionType::Deposit, 6, None),
    ];
    for t in later {
        let _ = a.process(&t);
        assert!(a.state().locked);
    }
}

#[test]
fn disputed_withdrawal_holds_its_amount() {
    let mut a = account_after(&[deposit(1, 50_000), withdrawal(2, 20_000)]);
    assert_eq!(a.state(), balances(30_000, 0, 30_000, false));
    assert_eq!(
        a.process(&record(TransactionType::Dispute, 2, None)),
        Ok(Outcome::Applied)
    );
    assert_eq!(a.state(), balances(10_000, 20_000, 30_000, false));
    assert_eq!(
        a.process(&record(TransactionType::Chargeback, 2, None)),
        Ok(Outcome::Applied)
    );
    assert_eq!(a.state(), balances(10_000, 0, 10_000, true));
}

#[test]
fn dispute_after_the_funds_left_makes_available_negative() {
    let mut a = account_after(&[deposit(1, 50_000), withdrawal(2, 50_000)]);
    assert_eq!(
        a.process(&record(TransactionType::Dispute, 1, None)),
        Ok(Outcome::Applied)
    );
    assert_eq!(a.state(), balances(-50_000, 50_000, 0, false));
    assert_eq!(
        a.process(&record(TransactionType::Chargeback, 1, None)),
        Ok(Outcome::Applied)
    );
    assert_eq!(a.state(), balances(-50_000, 0, -50_000, true));
}

#[test]
fn reference_acts_on_the_earliest_entry_with_the_id() {
    let mut a = account_after(&[deposit(5, 10_000), deposit(5, 70_000)]);
    assert_eq!(
        a.process(&record(TransactionType::Dispute, 5, None)),
        Ok(Outcome::Applied)
    );
    assert_eq!(a.state(), balances(70_000, 10_000, 80_000, false));
    assert_eq!(
        a.process(&record(TransactionType::Dispute, 5, None)),
        Ok(Outcome::Ignored(IgnoreReason::WrongState))
    );
    assert_eq!(a.state(), balances(70_000, 10_000, 80_000, false));
}

#[test]
fn available_is_total_less_held_throughout() {
    let log = [
        deposit(1, 50_000),
        deposit(2, 25_000),
        withdrawal(3, 10_000),
        record(TransactionType::Dispute, 1, None),
        withdrawal(4, 100_000),
        record(TransactionType::Dispute, 3, None),
        record(TransactionType::Resolve, 1, None),
        record(TransactionType::Dispute, 2, None),
        record(TransactionType::Chargeback, 3, None),
        record(TransactionType::Chargeback, 2, None),
        deposit(5, 1),
        record(TransactionType::Resolve, 5, None),
    ];
    let mut a = Account::new(1);
    for t in log {
        let _ = a.process(&t);
        let s = a.state();
        assert_eq!(s.available, s.total - s.held);
        assert_eq!(s.available, a.available());
        assert!(s.held >= 0);
    }
    assert_eq!(a.state(), balances(30_001, 0, 30_001, true));
}

#[test]
fn widest_amounts_add_up_without_wrapping() {
    let mut a = Account::new(1);
    for tx in 0..4u32 {
        assert_eq!(a.process(&deposit(tx, i64::MAX)), Ok(Outcome::Applied));
    }
    let four = 4 * i128::from(i64::MAX);
    assert_eq!(a.state(), balances(four, 0, four, false));
    assert_eq!(
        a.process(&record(TransactionType::Dispute, 0, None)),
        Ok(Outcome::Applied)
    );
    assert_eq!(
        a.state(),
        balances(3 * i128::from(i64::MAX), i128::from(i64::MAX), four, false)
    );
}

#[test]
fn history_entry_of_a_record() {
    let e = ProcessedTransaction::from(&deposit(9, 12_345));
    assert_eq!(e.tx, 9);
    assert_eq!(e.amount, 12_345);
    assert_eq!(e.latest_state, TransactionType::Deposit);
    let e = ProcessedTransaction::from(&record(TransactionType::Withdrawal, 4, None));
    assert_eq!(e.tx, 4);
    assert_eq!(e.amount, 0);
    assert_eq!(e.latest_state, TransactionType::Withdrawal);
}
