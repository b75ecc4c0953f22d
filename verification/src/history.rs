use vstd::prelude::*;
use crate::transaction::{Transaction, TransactionType};

verus! {

/// A deposit or withdrawal that an account has accepted, with the latest
/// kind of record applied to it.
#[derive(Debug, Clone, Copy)]
pub struct ProcessedTransaction {
    pub tx: u32,
    pub amount: i64,
    pub latest_state: TransactionType,
}

impl ProcessedTransaction {
    /// The same entry moved to another state.
    pub open spec fn with_state(self, state: TransactionType) -> ProcessedTransaction {
        ProcessedTransaction { tx: self.tx, amount: self.amount, latest_state: state }
    }
}

impl vstd::std_specs::convert::FromSpecImpl<&Transaction> for ProcessedTransaction {
    open spec fn obeys_from_spec() -> bool {
        true
    }

    open spec fn from_spec(value: &Transaction) -> ProcessedTransaction {
        entry_of(*value)
    }
}

impl From<&Transaction> for ProcessedTransaction {
    /// The entry that a record leaves in the history: its id, its amount
    /// (zero where it carries none) and its kind as the first state.
    fn from(value: &Transaction) -> (entry: ProcessedTransaction)
        ensures
            entry == entry_of(*value),
    {
        ProcessedTransaction {
            tx: value.tx,
            amount: match value.amount {
                Some(a) => a,
                None => 0,
            },
            latest_state: value.kind,
        }
    }
}

/// The entry that a record leaves in the history when it is accepted.
pub open spec fn entry_of(t: Transaction) -> ProcessedTransaction {
    ProcessedTransaction {
        tx: t.tx,
        amount: match t.amount {
            Some(a) => a,
            None => 0,
        },
        latest_state: t.kind,
    }
}

/// Sum of the amounts of the entries that are in state `state`.
pub open spec fn amount_in_state(h: Seq<ProcessedTransaction>, state: TransactionType) -> int
    decreases h.len(),
{
    if h.len() == 0 {
        0
    } else {
        amount_in_state(h.drop_last(), state) + if h.last().latest_state == state {
            h.last().amount as int
        } else {
            0
        }
    }
}

/// Sum of the amounts of all entries.
pub open spec fn amount_total(h: Seq<ProcessedTransaction>) -> int
    decreases h.len(),
{
    if h.len() == 0 {
        0
    } else {
        amount_total(h.drop_last()) + h.last().amount
    }
}

/// Every entry carries a positive amount.
pub open spec fn amounts_positive(h: Seq<ProcessedTransaction>) -> bool {
    forall|i: int| 0 <= i < h.len() ==> (#[trigger] h[i]).amount > 0
}

/// `i` is the position of the earliest entry with id `tx`.
pub open spec fn is_first_match(h: Seq<ProcessedTransaction>, tx: u32, i: int) -> bool {
    &&& 0 <= i < h.len()
    &&& h[i].tx == tx
    &&& forall|j: int| 0 <= j < i ==> (#[trigger] h[j]).tx != tx
}

/// Position of the earliest entry with id `tx`, if there is one.
pub open spec fn lookup(h: Seq<ProcessedTransaction>, tx: u32) -> Option<int> {
    if exists|i: int| is_first_match(h, tx, i) {
        Some(choose|i: int| is_first_match(h, tx, i))
    } else {
        None
    }
}

/// Two earliest positions are the same position.
pub proof fn lemma_first_match_unique(h: Seq<ProcessedTransaction>, tx: u32, i: int, j: int)
    requires
        is_first_match(h, tx, i),
        is_first_match(h, tx, j),
    ensures
        i == j,
{
    if i < j {
        assert(h[i].tx != tx);
    } else if j < i {
        assert(h[j].tx != tx);
    }
}

/// `lookup` finds `i` exactly when `i` is the earliest position with `tx`.
pub proof fn lemma_lookup_found(h: Seq<ProcessedTransaction>, tx: u32, i: int)
    requires
        is_first_match(h, tx, i),
    ensures
        lookup(h, tx) == Some(i),
{
    let k = choose|k: int| is_first_match(h, tx, k);
    lemma_first_match_unique(h, tx, i, k);
}

/// `lookup` finds nothing when no entry carries `tx`.
pub proof fn lemma_lookup_absent(h: Seq<ProcessedTransaction>, tx: u32)
    requires
        forall|j: int| 0 <= j < h.len() ==> (#[trigger] h[j]).tx != tx,
    ensures
        lookup(h, tx) is None,
{
    if exists|i: int| is_first_match(h, tx, i) {
        let k = choose|k: int| is_first_match(h, tx, k);
        assert(h[k].tx != tx);
    }
}

/// Where some entry carries `tx`, an earliest such entry exists.
pub proof fn lemma_some_match_gives_first(h: Seq<ProcessedTransaction>, tx: u32, j: int)
    requires
        0 <= j < h.len(),
        h[j].tx == tx,
    ensures
        lookup(h, tx) is Some,
        exists|i: int| is_first_match(h, tx, i),
    decreases j,
{
    if exists|k: int| 0 <= k < j && (#[trigger] h[k]).tx == tx {
        let k = choose|k: int| 0 <= k < j && (#[trigger] h[k]).tx == tx;
        lemma_some_match_gives_first(h, tx, k);
    } else {
        assert(is_first_match(h, tx, j));
    }
}

/// Appending an entry adds its amount to the sum of its state and to no other.
pub proof fn lemma_push_sums(h: Seq<ProcessedTransaction>, e: ProcessedTransaction, state: TransactionType)
    ensures
        amount_total(h.push(e)) == amount_total(h) + e.amount,
        amount_in_state(h.push(e), state) == amount_in_state(h, state) + if e.latest_state == state {
            e.amount as int
        } else {
            0
        },
{
    assert(h.push(e).drop_last() =~= h);
}

/// Moving the entry at `i` to state `to` moves its amount from the sum of its
/// old state to the sum of `to`, and leaves the total as it was.
pub proof fn lemma_update_sums(
    h: Seq<ProcessedTransaction>,
    i: int,
    to: TransactionType,
    state: TransactionType,
)
    requires
        0 <= i < h.len(),
    ensures
        amount_total(h.update(i, h[i].with_state(to))) == amount_total(h),
        amount_in_state(h.update(i, h[i].with_state(to)), state) == amount_in_state(h, state) - (if h[i].latest_state
            == state {
            h[i].amount as int
        } else {
            0
        }) + (if to == state {
            h[i].amount as int
        } else {
            0
        }),
    decreases h.len(),
{
    let u = h.update(i, h[i].with_state(to));
    if i == h.len() - 1 {
        assert(u.drop_last() =~= h.drop_last());
    } else {
        assert(u.drop_last() =~= h.drop_last().update(i, h.drop_last()[i].with_state(to)));
        lemma_update_sums(h.drop_last(), i, to, state);
    }
}

/// The sums of two different states together never exceed the total.
pub proof fn lemma_two_states_within_total(
    h: Seq<ProcessedTransaction>,
    s1: TransactionType,
    s2: TransactionType,
)
    requires
        amounts_positive(h),
        s1 != s2,
    ensures
        0 <= amount_in_state(h, s1),
        0 <= amount_in_state(h, s2),
        amount_in_state(h, s1) + amount_in_state(h, s2) <= amount_total(h),
    decreases h.len(),
{
    if h.len() > 0 {
        assert(h.last() == h[h.len() - 1]);
        lemma_two_states_within_total(h.drop_last(), s1, s2);
    }
}

/// The total is at most the largest amount times the number of entries.
pub proof fn lemma_total_bounded(h: Seq<ProcessedTransaction>)
    ensures
        amount_total(h) <= h.len() * i64::MAX,
    decreases h.len(),
{
    if h.len() > 0 {
        lemma_total_bounded(h.drop_last());
        assert((h.len() - 1) * i64::MAX + i64::MAX == h.len() * i64::MAX) by (nonlinear_arith);
    }
}

} // verus!
