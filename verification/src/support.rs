//! Support counting: how many transactions contain every item of an itemset.

use crate::types::{views, Itemset, Transaction};
use vstd::prelude::*;

verus! {

/// Every item of `itemset` occurs in `transaction`.
pub open spec fn contains_all(transaction: Seq<usize>, itemset: Seq<usize>) -> bool {
    forall|i: int| 0 <= i < itemset.len() ==> transaction.contains(#[trigger] itemset[i])
}

/// The number of transactions that contain every item of `itemset`.
pub open spec fn support_count(transactions: Seq<Seq<usize>>, itemset: Seq<usize>) -> nat
    decreases transactions.len(),
{
    if transactions.len() == 0 {
        0
    } else {
        support_count(transactions.drop_last(), itemset) + if contains_all(
            transactions.last(),
            itemset,
        ) {
            1nat
        } else {
            0nat
        }
    }
}

/// What counting keeps of a candidate: the candidate beside its support count
/// if that count reaches `min_support_count`, and nothing otherwise.
pub open spec fn frequent_entry_of(
    transactions: Seq<Seq<usize>>,
    min_support_count: nat,
    candidate: Seq<usize>,
) -> Option<(Seq<usize>, u32)> {
    if support_count(transactions, candidate) >= min_support_count {
        Some((candidate, support_count(transactions, candidate) as u32))
    } else {
        None
    }
}

/// `frequent_entry_of` as a function of the candidate alone.
pub open spec fn frequent_entry_fn(
    transactions: Seq<Seq<usize>>,
    min_support_count: nat,
) -> spec_fn(Seq<usize>) -> Option<(Seq<usize>, u32)> {
    |candidate: Seq<usize>| frequent_entry_of(transactions, min_support_count, candidate)
}

/// The candidates whose support count reaches `min_support_count`, each
/// mapped to that count.
pub open spec fn frequent_among(
    candidates: Seq<Seq<usize>>,
    transactions: Seq<Seq<usize>>,
    min_support_count: nat,
) -> Map<Seq<usize>, u32> {
    Map::new(
        |s: Seq<usize>| candidates.contains(s) && support_count(transactions, s) >= min_support_count,
        |s: Seq<usize>| support_count(transactions, s) as u32,
    )
}

/// The map that arises from inserting `entries` one after the other.
pub open spec fn entries_map(entries: Seq<(Seq<usize>, u32)>) -> Map<Seq<usize>, u32>
    decreases entries.len(),
{
    if entries.len() == 0 {
        Map::empty()
    } else {
        entries_map(entries.drop_last()).insert(entries.last().0, entries.last().1)
    }
}

/// Inserting the kept entries one by one yields exactly the frequent candidates.
pub proof fn lemma_entries_map_of_frequent(
    candidates: Seq<Seq<usize>>,
    transactions: Seq<Seq<usize>>,
    min_support_count: nat,
)
    ensures
        entries_map(candidates.filter_map(frequent_entry_fn(transactions, min_support_count)))
            == frequent_among(candidates, transactions, min_support_count),
    decreases candidates.len(),
{
    let f = frequent_entry_fn(transactions, min_support_count);
    let whole = frequent_among(candidates, transactions, min_support_count);
    if candidates.len() == 0 {
        assert(whole =~= Map::<Seq<usize>, u32>::empty());
    } else {
        let rest = candidates.drop_last();
        let last = candidates.last();
        lemma_entries_map_of_frequent(rest, transactions, min_support_count);
        let part = frequent_among(rest, transactions, min_support_count);
        assert forall|s: Seq<usize>| candidates.contains(s) <==> rest.contains(s) || s == last by {
            if candidates.contains(s) {
                let i = choose|i: int| 0 <= i < candidates.len() && candidates[i] == s;
                if i < rest.len() {
                    assert(rest[i] == s);
                }
            }
            if rest.contains(s) {
                let i = choose|i: int| 0 <= i < rest.len() && rest[i] == s;
                assert(candidates[i] == s);
            }
            assert(candidates[candidates.len() - 1] == last);
        }
        match f(last) {
            Some(e) => {
                let kept = rest.filter_map(f) + seq![e];
                assert(kept.drop_last() =~= rest.filter_map(f));
                assert(kept.last() == e);
                assert(whole =~= part.insert(e.0, e.1));
            },
            None => {
                assert(whole =~= part);
            },
        }
    }
}

/// A support count never exceeds the number of transactions.
pub proof fn lemma_support_count_bounded(transactions: Seq<Seq<usize>>, itemset: Seq<usize>)
    ensures
        support_count(transactions, itemset) <= transactions.len(),
    decreases transactions.len(),
{
    if transactions.len() > 0 {
        lemma_support_count_bounded(transactions.drop_last(), itemset);
    }
}

/// A further transaction adds one to the support of the itemsets it contains.
pub proof fn lemma_support_push(done: Seq<Seq<usize>>, transaction: Seq<usize>, itemset: Seq<usize>)
    ensures
        support_count(done.push(transaction), itemset) == support_count(done, itemset) + if contains_all(
            transaction,
            itemset,
        ) {
            1nat
        } else {
            0nat
        },
{
    let all = done.push(transaction);
    assert(all.drop_last() =~= done);
    assert(all.last() == transaction);
}

/// Tells whether `item` occurs in `transaction`.
pub fn transaction_contains(transaction: &Transaction, item: usize) -> (found: bool)
    ensures
        found == transaction@.contains(item),
{
    let mut i: usize = 0;
    while i < transaction.len()
        invariant
            i <= transaction.len(),
            forall|j: int| 0 <= j < i ==> transaction@[j] != item,
        decreases transaction.len() - i,
    {
        if transaction[i] == item {
            return true;
        }
        i += 1;
    }
    false
}

/// Tells whether `transaction` holds every item of `itemset`.
pub fn transaction_contains_all(transaction: &Transaction, itemset: &Itemset) -> (all: bool)
    ensures
        all == contains_all(transaction@, itemset@),
{
    let mut i: usize = 0;
    while i < itemset.len()
        invariant
            i <= itemset.len(),
            forall|j: int| 0 <= j < i ==> transaction@.contains(#[trigger] itemset@[j]),
        decreases itemset.len() - i,
    {
        if !transaction_contains(transaction, itemset[i]) {
            return false;
        }
        i += 1;
    }
    true
}

/// Counts the transactions that contain every item of `itemset`.
pub fn count_support(transactions: &[Transaction], itemset: &Itemset) -> (count: usize)
    ensures
        count == support_count(views(transactions@), itemset@),
{
    let mut count: usize = 0;
    let mut i: usize = 0;
    while i < transactions.len()
        invariant
            i <= transactions.len(),
            count <= i,
            count == support_count(views(transactions@).take(i as int), itemset@),
        decreases transactions.len() - i,
    {
        proof {
            let all = views(transactions@);
            assert(all.take(i + 1).drop_last() == all.take(i as int));
            assert(all.take(i + 1).last() == transactions@[i as int]@);
        }
        if transaction_contains_all(&transactions[i], itemset) {
            count += 1;
        }
        i += 1;
    }
    proof {
        let all = views(transactions@);
        assert(all.take(i as int) == all);
    }
    count
}

} // verus!
