//! What holds of every account and of every record applied to it, stated
//! over the model that the contracts of `Account` and `Registry` use.

use vstd::prelude::*;
use crate::account::{AccountView, apply, disputable, referenced, verdict};
use crate::history::{
    ProcessedTransaction, entry_of, is_first_match, lookup, lemma_first_match_unique,
    lemma_lookup_found, lemma_push_sums, lemma_some_match_gives_first,
    lemma_two_states_within_total, lemma_update_sums,
};
use crate::registry::{opened, routed};
use crate::transaction::{Error, IgnoreReason, Outcome, Transaction, TransactionType};

verus! {

/// A fresh account is consistent.
pub proof fn empty_is_consistent(id: u16)
    ensures
        AccountView::empty(id).consistent(),
{
}

/// Whatever record is applied to a consistent account, the account that
/// results is consistent again.
pub proof fn apply_keeps_consistent(a: AccountView, t: Transaction)
    requires
        a.consistent(),
    ensures
        apply(a, t).consistent(),
{
    let h = a.history;
    lemma_two_states_within_total(h, TransactionType::Dispute, TransactionType::Chargeback);
    if verdict(a, t) == Ok::<Outcome, Error>(Outcome::Applied) {
        match t.kind {
            TransactionType::Deposit | TransactionType::Withdrawal => {
                lemma_push_sums(h, entry_of(t), TransactionType::Dispute);
                lemma_push_sums(h, entry_of(t), TransactionType::Chargeback);
            },
            _ => {
                let i = referenced(h, t.kind, t.tx).unwrap();
                lemma_update_sums(h, i, t.kind, TransactionType::Dispute);
                lemma_update_sums(h, i, t.kind, TransactionType::Chargeback);
            },
        }
    }
}

/// In every consistent account the available funds are the total less the
/// held funds, and the held funds are not negative.
pub proof fn held_is_never_negative(a: AccountView)
    requires
        a.consistent(),
    ensures
        a.available() == a.total - a.held,
        a.held >= 0,
{
    lemma_two_states_within_total(
        a.history,
        TransactionType::Dispute,
        TransactionType::Chargeback,
    );
}

/// A deposit of a positive amount is applied: the total grows by exactly
/// that amount, the held funds stay, and the history gains one entry in a
/// state that admits a dispute. Where the id was not on file before, a later
/// dispute on it finds that entry.
pub proof fn deposit_adds_to_total(a: AccountView, t: Transaction, amount: i64)
    requires
        t.kind == TransactionType::Deposit,
        t.amount == Some(amount),
        amount > 0,
    ensures
        verdict(a, t) == Ok::<Outcome, Error>(Outcome::Applied),
        apply(a, t).total == a.total + amount,
        apply(a, t).held == a.held,
        apply(a, t).locked == a.locked,
        apply(a, t).history == a.history.push(
            ProcessedTransaction { tx: t.tx, amount, latest_state: TransactionType::Deposit },
        ),
        disputable(apply(a, t).history.last().latest_state),
        lookup(a.history, t.tx) is None ==> referenced(
            apply(a, t).history,
            TransactionType::Dispute,
            t.tx,
        ) == Ok::<int, IgnoreReason>(a.history.len() as int),
{
    let h = apply(a, t).history;
    if lookup(a.history, t.tx) is None {
        assert forall|j: int| 0 <= j < a.history.len() implies (#[trigger] h[j]).tx != t.tx by {
            if a.history[j].tx == t.tx {
                lemma_some_match_gives_first(a.history, t.tx, j);
            }
        }
        lemma_lookup_found(h, t.tx, a.history.len() as int);
    }
}

/// A deposit without an amount, or with one that is not positive, is
/// rejected with the matching error and leaves the account as it was.
pub proof fn deposit_without_positive_amount_is_rejected(a: AccountView, t: Transaction)
    requires
        t.kind == TransactionType::Deposit,
        t.amount matches Some(amount) ==> amount <= 0,
    ensures
        t.amount is None ==> verdict(a, t) == Err::<Outcome, Error>(Error::MissingAmount),
        t.amount is Some ==> verdict(a, t) == Err::<Outcome, Error>(Error::IncorrectAmount),
        apply(a, t) == a,
{
}

/// A withdrawal of a positive amount that the available funds do not cover
/// is rejected and leaves the account as it was; one that they cover takes
/// exactly that amount off the total and leaves the held funds alone.
pub proof fn withdrawal_takes_from_total(a: AccountView, t: Transaction, amount: i64)
    requires
        t.kind == TransactionType::Withdrawal,
        t.amount == Some(amount),
        amount > 0,
    ensures
        a.available() < amount ==> verdict(a, t) == Err::<Outcome, Error>(
            Error::InsufficientBalance,
        ) && apply(a, t) == a,
        a.available() >= amount ==> verdict(a, t) == Ok::<Outcome, Error>(Outcome::Applied)
            && apply(a, t).total == a.total - amount && apply(a, t).held == a.held && apply(
            a,
            t,
        ).locked == a.locked,
{
}

/// A dispute on a transaction that is on file and has not been disputed
/// freezes its amount: the held funds grow by it, the available funds shrink
/// by it, and the total stays.
pub proof fn dispute_holds_amount(a: AccountView, t: Transaction, i: int)
    requires
        t.kind == TransactionType::Dispute,
        lookup(a.history, t.tx) == Some(i),
        disputable(a.history[i].latest_state),
    ensures
        verdict(a, t) == Ok::<Outcome, Error>(Outcome::Applied),
        apply(a, t).held == a.held + a.history[i].amount,
        apply(a, t).total == a.total,
        apply(a, t).available() == a.available() - a.history[i].amount,
        apply(a, t).locked == a.locked,
        apply(a, t).history == a.history.update(
            i,
            a.history[i].with_state(TransactionType::Dispute),
        ),
{
}

/// A resolve on a transaction under dispute releases its amount: the held
/// funds shrink by it, the available funds grow by it, and the total stays.
pub proof fn resolve_releases_amount(a: AccountView, t: Transaction, i: int)
    requires
        t.kind == TransactionType::Resolve,
        lookup(a.history, t.tx) == Some(i),
        a.history[i].latest_state == TransactionType::Dispute,
    ensures
        verdict(a, t) == Ok::<Outcome, Error>(Outcome::Applied),
        apply(a, t).held == a.held - a.history[i].amount,
        apply(a, t).total == a.total,
        apply(a, t).available() == a.available() + a.history[i].amount,
        apply(a, t).locked == a.locked,
        apply(a, t).history == a.history.update(
            i,
            a.history[i].with_state(TransactionType::Resolve),
        ),
{
}

/// A chargeback on a transaction under dispute takes its amount out of the
/// held funds and out of the total, and locks the account.
pub proof fn chargeback_removes_amount_and_locks(a: AccountView, t: Transaction, i: int)
    requires
        t.kind == TransactionType::Chargeback,
        lookup(a.history, t.tx) == Some(i),
        a.history[i].latest_state == TransactionType::Dispute,
    ensures
        verdict(a, t) == Ok::<Outcome, Error>(Outcome::Applied),
        apply(a, t).held == a.held - a.history[i].amount,
        apply(a, t).total == a.total - a.history[i].amount,
        apply(a, t).available() == a.available(),
        apply(a, t).locked,
        apply(a, t).history == a.history.update(
            i,
            a.history[i].with_state(TransactionType::Chargeback),
        ),
{
}

/// No record unlocks an account.
pub proof fn lock_is_permanent(a: AccountView, t: Transaction)
    requires
        a.locked,
    ensures
        apply(a, t).locked,
{
}

/// A dispute, resolve or chargeback whose id is not on file, or is on file
/// in a state that does not admit the request, raises no error, says which
/// of the two it was, and leaves the account as it was.
pub proof fn unmatched_reference_is_ignored(a: AccountView, t: Transaction)
    requires
        t.kind == TransactionType::Dispute || t.kind == TransactionType::Resolve || t.kind
            == TransactionType::Chargeback,
        referenced(a.history, t.kind, t.tx) is Err,
    ensures
        lookup(a.history, t.tx) is None ==> verdict(a, t) == Ok::<Outcome, Error>(
            Outcome::Ignored(IgnoreReason::NotFound),
        ),
        lookup(a.history, t.tx) is Some ==> verdict(a, t) == Ok::<Outcome, Error>(
            Outcome::Ignored(IgnoreReason::WrongState),
        ),
        apply(a, t) == a,
{
}

/// A reference meets no entry exactly when no entry of the history carries
/// the id, and the wrong state exactly when the earliest entry with the id
/// does not admit the request.
pub proof fn reference_fails_for_two_reasons(
    h: Seq<ProcessedTransaction>,
    kind: TransactionType,
    tx: u32,
)
    ensures
        referenced(h, kind, tx) == Err::<int, IgnoreReason>(IgnoreReason::NotFound) <==> forall|
            j: int,
        |
            0 <= j < h.len() ==> (#[trigger] h[j]).tx != tx,
        referenced(h, kind, tx) == Err::<int, IgnoreReason>(IgnoreReason::WrongState)
            <==> exists|i: int|
            is_first_match(h, tx, i) && if kind == TransactionType::Dispute {
                !disputable(h[i].latest_state)
            } else {
                h[i].latest_state != TransactionType::Dispute
            },
{
    if exists|j: int| 0 <= j < h.len() && (#[trigger] h[j]).tx == tx {
        let j = choose|j: int| 0 <= j < h.len() && (#[trigger] h[j]).tx == tx;
        lemma_some_match_gives_first(h, tx, j);
    }
    if exists|i: int| is_first_match(h, tx, i) {
        let i = choose|i: int| is_first_match(h, tx, i);
        assert(h[i].tx == tx);
        assert forall|k: int| is_first_match(h, tx, k) implies k == i by {
            lemma_first_match_unique(h, tx, k, i);
        }
    }
}

/// Routing a record changes the account of its client and no other.
pub proof fn route_touches_one_account(accounts: Map<u16, AccountView>, t: Transaction, other: u16)
    requires
        other != t.client,
    ensures
        routed(accounts, t).contains_key(other) == accounts.contains_key(other),
        accounts.contains_key(other) ==> routed(accounts, t)[other] == accounts[other],
        routed(accounts, t).contains_key(t.client),
        routed(accounts, t)[t.client] == apply(opened(accounts, t.client), t),
{
}

} // verus!
