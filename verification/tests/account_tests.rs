use account_ledger::account::{Account, AccountState};
use account_ledger::transaction::{Transaction, TransactionType};

// Amounts are written in ten-thousandths: 5.0 is 50_000.

fn transaction(t: TransactionType, a: Option<i64>, c: u16, tx: u32) -> Transaction {
    Transaction {
        kind: t,
        amount: a,
        client: c,
        tx,
    }
}

fn state(c: u16, a: i128, h: i128, t: i128, l: bool) -> AccountState {
    AccountState {
        client: c,
        available: a,
        held: h,
        total: t,
        locked: l,
    }
}

#[test]
fn single_deposit() {
    let mut a = Account::new(0);
    let t = transaction(TransactionType::Deposit, Some(50_000), 0, 0);
    assert_eq!(a.available(), 0);
    let r = a.process(&t);
    assert!(r.is_ok());
    assert_eq!(a.available(), 50_000)
}

#[test]
fn single_witdrawal() {
    let mut a = Account::new(0);
    let t = transaction(TransactionType::Withdrawal, Some(50_000), 0, 0);
    assert_eq!(a.available(), 0);
    let r = a.process(&t);
    assert!(r.is_err());
    assert_eq!(a.available(), 0);
}

#[test]
fn deposit_then_witdrawal() {
    let mut a = Account::new(0);
    let ts = vec![
        transaction(TransactionType::Deposit, Some(50_000), 0, 0),
        transaction(TransactionType::Withdrawal, Some(30_000), 0, 0),
    ];
    for t in ts {
        let r = a.process(&t);
        assert!(r.is_ok());
    }
    assert_eq!(a.available(), 20_000);
}

#[test]
fn negative_amounts() {
    let mut a = Account::new(0);
    let ts = vec![
        transaction(TransactionType::Deposit, Some(-50_000), 0, 0),
        transaction(TransactionType::Withdrawal, Some(-30_000), 0, 0),
    ];
    for t in ts {
        let r = a.process(&t);
        assert!(r.is_err());
    }
    assert_eq!(a.available(), 0);
}

#[test]
fn dispute() {
    let mut a = Account::new(0);
    let ts = vec![
        transaction(TransactionType::Deposit, Some(50_000), 0, 0),
        transaction(TransactionType::Deposit, Some(50_000), 0, 1),
        transaction(TransactionType::Dispute, None, 0, 0),
    ];
    for t in ts {
        let r = a.process(&t);
        assert!(r.is_ok());
    }
    assert_eq!(a.state(), state(0, 50_000, 50_000, 100_000, false));
}

#[test]
fn resolve() {
    let mut a = Account::new(0);
    let ts = vec![
        transaction(TransactionType::Deposit, Some(50_000), 0, 0),
        transaction(TransactionType::Deposit, Some(50_000), 0, 1),
        transaction(TransactionType::Dispute, None, 0, 0),
        transaction(TransactionType::Deposit, Some(50_000), 0, 2),
    ];
    for t in ts {
        let r = a.process(&t);
        assert!(r.is_ok());
    }
    assert_eq!(a.state(), state(0, 100_000, 50_000, 150_000, false));

    let _ = a.process(&transaction(TransactionType::Resolve, None, 0, 0));
    assert_eq!(a.state(), state(0, 150_000, 0, 150_000, false));
}

#[test]
fn chargeback() {
    let mut a = Account::new(0);
    let ts = vec![
        transaction(TransactionType::Deposit, Some(50_000), 0, 0),
        transaction(TransactionType::Deposit, Some(50_000), 0, 1),
        transaction(TransactionType::Dispute, None, 0, 0),
        transaction(TransactionType::Deposit, Some(50_000), 0, 2),
    ];
    for t in ts {
        let r = a.process(&t);
        assert!(r.is_ok());
    }
    assert_eq!(a.state(), state(0, 100_000, 50_000, 150_000, false));

    let _ = a.process(&transaction(TransactionType::Chargeback, None, 0, 0));
    assert_eq!(a.state(), state(0, 100_000, 0, 100_000, true));
}
