//! The mining engine: indexing, candidate generation, support counting and
//! the level driver.

use crate::combi::{
    is_index_pair, is_join_candidate, join_step, lemma_pairs_of, lemma_sorted_pairs,
    pair_combinations, pairs_of, sorted_pair,
};
use crate::counts::ItemsetCounts;
use crate::indexing::{
    frequent_items, index_transactions, inventory_of, is_indexing, label_views, raw_views,
};
use crate::levels::{
    at_least, frequent_itemsets, frequent_pairs, is_mining_result, keeps_support,
    lemma_keeps_support_filter, lemma_level_one, lemma_level_two, lemma_mined, lemma_next_level,
    mined, singleton_counts,
};
use crate::order::lex_ascending;
use crate::support::{
    count_support, entries_map, frequent_among, frequent_entry_fn, frequent_entry_of,
    lemma_entries_map_of_frequent, lemma_support_count_bounded,
};
use crate::types::{
    views, FrequentItemsets, Inventory, ItemCounts, Itemset, RawTransaction, Transaction,
};
use rayon::iter::{IntoParallelRefIterator, ParallelIterator};
use std::collections::HashMap;
use vstd::prelude::*;
use vstd::std_specs::iter::IteratorSpec;

verus! {

broadcast use vstd::std_specs::hash::group_hash_axioms;

/// The mathematical view of a list of kept entries.
pub open spec fn entry_views(entries: Seq<(Itemset, u32)>) -> Seq<(Seq<usize>, u32)> {
    entries.map_values(|e: (Itemset, u32)| (e.0@, e.1))
}

/// Counts the support of one candidate and keeps it, beside its count, if the
/// count reaches `min_support_count`.
pub fn frequent_entry(
    candidate: &Itemset,
    transactions: &[Transaction],
    min_support_count: usize,
) -> (kept: Option<(Itemset, u32)>)
    requires
        transactions.len() <= u32::MAX,
    ensures
        match kept {
            Some(e) => frequent_entry_of(views(transactions@), min_support_count as nat, candidate@)
                == Some((e.0@, e.1)),
            None => frequent_entry_of(views(transactions@), min_support_count as nat, candidate@)
                is None,
        },
{
    let count = count_support(transactions, candidate);
    proof {
        lemma_support_count_bounded(views(transactions@), candidate@);
    }
    if count >= min_support_count {
        Some((candidate.clone(), count as u32))
    } else {
        None
    }
}

/// Runs `frequent_entry` on every candidate through rayon's
/// `par_iter().filter_map(..).collect()`.
///
/// Trusted: rayon applies the closure to each candidate and collects the
/// `Some` results into the vector in the order of the candidates.
#[verifier::external_body]
fn par_frequent_entries(
    candidates: &Vec<Itemset>,
    transactions: &[Transaction],
    min_support_count: usize,
) -> (kept: Vec<(Itemset, u32)>)
    requires
        transactions.len() <= u32::MAX,
    ensures
        entry_views(kept@) == views(candidates@).filter_map(
            frequent_entry_fn(views(transactions@), min_support_count as nat),
        ),
{
    candidates.par_iter().filter_map(|c| frequent_entry(c, transactions, min_support_count)).collect()
}

/// Counts the support of every candidate over `transactions` and returns the
/// candidates whose count reaches `min_support_count`, each with its count.
pub fn generate_frequent_itemset_counts_from_candidates(
    candidates: Vec<Itemset>,
    transactions: &[Transaction],
    min_support_count: usize,
) -> (frequent: ItemsetCounts)
    requires
        transactions.len() <= u32::MAX,
    ensures
        frequent.wf(),
        frequent@ == frequent_among(
            views(candidates@),
            views(transactions@),
            min_support_count as nat,
        ),
{
    let kept = par_frequent_entries(&candidates, transactions, min_support_count);
    let ghost entries = entry_views(kept@);
    let mut frequent = ItemsetCounts::new();
    for entry in it: kept
        invariant
            frequent.wf(),
            entry_views(it.seq()) == entries,
            frequent@ == entries_map(entries.take(it.index() as int)),
    {
        proof {
            let i = it.index() as int;
            assert(entries.take(i + 1).drop_last() == entries.take(i));
            assert(entries.take(i + 1).last() == (entry.0@, entry.1));
        }
        frequent.insert(entry.0, entry.1);
    }
    proof {
        assert(entries.take(entries.len() as int) == entries);
        lemma_entries_map_of_frequent(
            views(candidates@),
            views(transactions@),
            min_support_count as nat,
        );
    }
    frequent
}

/// Counts the support of every pair of `items` over `transactions` and
/// returns the pairs whose count reaches `min_support_count`, the smaller
/// item first, each with its count.
pub fn yo(items: &Vec<usize>, transactions: &[Transaction], min_support_count: usize) -> (frequent:
    ItemsetCounts)
    requires
        transactions.len() <= u32::MAX,
    ensures
        frequent.wf(),
        frequent@ == frequent_pairs(items@, views(transactions@), min_support_count as nat),
{
    let pairs = pair_combinations(items);
    proof {
        lemma_pairs_of(items@);
    }
    let mut candidates: Vec<Itemset> = Vec::new();
    let mut k: usize = 0;
    while k < pairs.len()
        invariant
            k <= pairs.len(),
            views(pairs@) == pairs_of(items@),
            forall|q: int|
                0 <= q < pairs_of(items@).len() ==> is_index_pair(
                    items@,
                    #[trigger] pairs_of(items@)[q],
                ),
            candidates.len() == k,
            forall|q: int|
                0 <= q < k ==> #[trigger] views(candidates@)[q] == sorted_pair(pairs_of(items@)[q]),
        decreases pairs.len() - k,
    {
        let pair = &pairs[k];
        proof {
            assert(views(pairs@)[k as int] == pair@);
            assert(is_index_pair(items@, pairs_of(items@)[k as int]));
        }
        let a = pair[0];
        let b = pair[1];
        let mut candidate: Itemset = Vec::new();
        if a <= b {
            candidate.push(a);
            candidate.push(b);
        } else {
            candidate.push(b);
            candidate.push(a);
        }
        proof {
            assert(candidate@ =~= sorted_pair(pair@));
        }
        let ghost before = views(candidates@);
        candidates.push(candidate);
        proof {
            assert(views(candidates@) =~= before.push(sorted_pair(pair@)));
        }
        k += 1;
    }
    let ghost listed = views(candidates@);
    let frequent = generate_frequent_itemset_counts_from_candidates(
        candidates,
        transactions,
        min_support_count,
    );
    proof {
        lemma_sorted_pairs(items@, listed);
        assert(frequent@ =~= frequent_pairs(
            items@,
            views(transactions@),
            min_support_count as nat,
        ));
    }
    frequent
}

/// The candidates of the next size over the frequent itemsets `prev`: the
/// itemsets of which every part that lacks one item is in `prev`.
pub fn generate_candidates_from_prev(prev_frequent_itemsets: &ItemsetCounts) -> (candidates: Vec<
    Itemset,
>)
    requires
        prev_frequent_itemsets.wf(),
    ensures
        lex_ascending(views(candidates@)),
        forall|c: Seq<usize>|
            views(candidates@).contains(c) <==> is_join_candidate(prev_frequent_itemsets@.dom(), c),
{
    join_step(prev_frequent_itemsets)
}

/// Turns the count of each item into the count of the itemset of that item
/// alone.
pub fn convert_to_itemset_counts(item_counts: ItemCounts) -> (itemset_counts: ItemsetCounts)
    ensures
        itemset_counts.wf(),
        itemset_counts@ == singleton_counts(item_counts@),
{
    let mut itemset_counts = ItemsetCounts::new();
    let ghost all = item_counts@;
    for entry in it: item_counts.iter()
        invariant
            all == item_counts@,
            itemset_counts.wf(),
            forall|i: int|
                0 <= i < it.seq().len() ==> all.contains_key(*(#[trigger] it.seq()[i]).0) && all[*it.seq()[i].0]
                    == *it.seq()[i].1,
            forall|k: usize| #[trigger] all.contains_key(k) ==> it.seq().contains((&k, &all[k])),
            itemset_counts@ == Map::new(
                |s: Seq<usize>|
                    s.len() == 1 && exists|i: int|
                        0 <= i < it.index() && *(#[trigger] it.seq()[i]).0 == s[0],
                |s: Seq<usize>| all[s[0]],
            ),
    {
        let (item, count) = entry;
        let ghost before = itemset_counts@;
        let ghost at = it.index() as int;
        let mut itemset: Itemset = Vec::new();
        itemset.push(*item);
        itemset_counts.insert(itemset, *count);
        proof {
            assert(it.seq()[at] == entry);
            let one = seq![*item];
            assert(itemset@ =~= one);
            let after = Map::new(
                |s: Seq<usize>|
                    s.len() == 1 && exists|i: int|
                        0 <= i < at + 1 && *(#[trigger] it.seq()[i]).0 == s[0],
                |s: Seq<usize>| all[s[0]],
            );
            assert forall|s: Seq<usize>| after.contains_key(s) <==> before.insert(
                one,
                *count,
            ).contains_key(s) by {
                if after.contains_key(s) {
                    let i = choose|i: int| 0 <= i < at + 1 && *(#[trigger] it.seq()[i]).0 == s[0];
                    if i == at {
                        assert(s =~= one);
                    }
                }
                if s == one {
                    assert(*it.seq()[at].0 == s[0]);
                }
            }
            assert(after =~= before.insert(one, *count));
        }
    }
    proof {
        assert(itemset_counts@ =~= singleton_counts(all));
    }
    itemset_counts
}

/// Indexes the raw transactions: gives each distinct label a dense
/// identifier in the order of first appearance, normalizes every transaction
/// to the ascending identifiers of its labels, and counts for each item the
/// transactions that hold it. Returns the counts of the items that reach
/// `min_support_count`, the label of every identifier, and the normalized
/// transactions.
pub fn generate_frequent_item_counts<'a>(
    raw_transactions: Vec<RawTransaction<'a>>,
    min_support_count: usize,
) -> (result: (ItemCounts, Inventory<'a>, Vec<Transaction>))
    requires
        raw_transactions.len() <= u32::MAX,
    ensures
        is_indexing(
            raw_views(raw_transactions@),
            min_support_count as nat,
            result.0@,
            result.1@,
            views(result.2@),
        ),
{
    let (labels, counts, transactions) = index_transactions(&raw_transactions);
    let mut inventory: Inventory<'a> = HashMap::new();
    let mut item_counts: ItemCounts = HashMap::new();
    let mut id: usize = 0;
    while id < labels.len()
        invariant
            id <= labels.len(),
            counts.len() == labels.len(),
            forall|k: usize| #[trigger] inventory@.contains_key(k) <==> k < id,
            forall|k: usize| k < id ==> #[trigger] inventory@[k] == labels@[k as int],
            forall|k: usize| #[trigger]
                item_counts@.contains_key(k) <==> k < id && counts@[k as int] >= min_support_count,
            forall|k: usize| #[trigger]
                item_counts@.contains_key(k) ==> item_counts@[k] == counts@[k as int],
        decreases labels.len() - id,
    {
        inventory.insert(id, labels[id]);
        if counts[id] as usize >= min_support_count {
            item_counts.insert(id, counts[id]);
        }
        id += 1;
    }
    proof {
        let raw = raw_views(raw_transactions@);
        let names = inventory_of(raw);
        assert(names == label_views(labels@));
        assert(item_counts@ =~= frequent_items(
            views(transactions@),
            names.len(),
            min_support_count as nat,
        ));
        assert forall|k: usize| k < names.len() implies (#[trigger] inventory@[k])@ == names[k as int] by {
            assert(inventory@[k] == labels@[k as int]);
        }
    }
    (item_counts, inventory, transactions)
}

/// Drops the transactions that hold fewer than `size` items; the others keep
/// their order.
pub fn retain_long(transactions: Vec<Transaction>, size: usize) -> (kept: Vec<Transaction>)
    ensures
        views(kept@) == views(transactions@).filter(at_least(size as nat)),
{
    let ghost all = views(transactions@);
    let mut kept: Vec<Transaction> = Vec::new();
    proof {
        reveal(Seq::filter);
        assert(all.take(0) =~= Seq::<Seq<usize>>::empty());
    }
    for transaction in it: transactions
        invariant
            views(it.seq()) == all,
            views(kept@) == all.take(it.index() as int).filter(at_least(size as nat)),
    {
        let ghost before = views(kept@);
        let ghost i = it.index() as int;
        proof {
            reveal(Seq::filter);
            assert(all.take(i + 1).drop_last() =~= all.take(i));
            assert(all.take(i + 1).last() == transaction@);
        }
        if transaction.len() >= size {
            kept.push(transaction);
            proof {
                assert(views(kept@) =~= before.push(all[i]));
            }
        }
    }
    proof {
        assert(all.take(all.len() as int) =~= all);
    }
    kept
}

/// The identifiers of the items that `item_counts` holds, each once.
pub fn frequent_item_ids(item_counts: &ItemCounts) -> (items: Vec<usize>)
    ensures
        items@.no_duplicates(),
        items@.to_set() == item_counts@.dom(),
{
    let mut items: Vec<usize> = Vec::new();
    let ghost whole: Seq<usize> = item_counts.keys().remaining().unref();
    for item in it: item_counts.keys()
        invariant
            it.seq().unref() == whole,
            items@.len() == it.index(),
            items@ == whole.take(it.index() as int),
            whole.to_set() == item_counts@.dom(),
            whole.no_duplicates(),
    {
        items.push(*item);
    }
    proof {
        assert(items@ =~= whole);
    }
    items
}

/// Mines the frequent itemsets of 1 to `k` items from the raw transactions.
///
/// Indexes the transactions, then goes from each size to the next: the
/// candidates of a size are made from the frequent itemsets of the size
/// below, and those whose support count reaches `min_support_count` are the
/// frequent itemsets of that size. Returns them by size, each with its
/// support count, beside the label of every item identifier. With `k` 0
/// nothing is computed and both maps are empty.
pub fn generate_frequent_itemsets<'a>(
    raw_transactions: Vec<RawTransaction<'a>>,
    min_support_count: usize,
    k: usize,
) -> (result: (FrequentItemsets, Inventory<'a>))
    requires
        raw_transactions.len() <= u32::MAX,
    ensures
        is_mining_result(
            raw_views(raw_transactions@),
            min_support_count as nat,
            k as nat,
            result.0@,
            result.1@,
        ),
{
    let mut all_frequent_itemsets: FrequentItemsets = HashMap::new();
    if k == 0 {
        return (all_frequent_itemsets, HashMap::new());
    }
    let ghost raw = raw_views(raw_transactions@);
    let ghost min = min_support_count as nat;
    let ghost num = inventory_of(raw).len();
    let (item_counts, inventory, indexed) = generate_frequent_item_counts(
        raw_transactions,
        min_support_count,
    );
    let ghost all = views(indexed@);
    let mut transactions = indexed;
    let mut size: usize = 1;
    proof {
        assert(keeps_support(all, all, 1));
        all.lemma_filter_len(at_least(2));
    }
    if k == 1 {
        let frequent_1_itemset_counts = convert_to_itemset_counts(item_counts);
        proof {
            lemma_level_one(all, num, min);
        }
        all_frequent_itemsets.insert(1, frequent_1_itemset_counts);
    } else {
        transactions = retain_long(transactions, 2);
        let items = frequent_item_ids(&item_counts);
        let frequent_2_itemset_counts = yo(&items, transactions.as_slice(), min_support_count);
        let frequent_1_itemset_counts = convert_to_itemset_counts(item_counts);
        proof {
            lemma_keeps_support_filter(all, all, 1, 2);
            lemma_level_one(all, num, min);
            lemma_level_two(all, views(transactions@), num, min, items@);
        }
        all_frequent_itemsets.insert(1, frequent_1_itemset_counts);
        all_frequent_itemsets.insert(2, frequent_2_itemset_counts);
        size = 2;
    }
    while size < k
        invariant
            1 <= size <= k,
            k >= 2 ==> size >= 2,
            min == min_support_count as nat,
            transactions.len() <= u32::MAX,
            keeps_support(views(transactions@), all, size as nat),
            forall|n: usize| #[trigger] all_frequent_itemsets@.contains_key(n) <==> 1 <= n <= size,
            forall|n: usize|
                1 <= n <= size ==> (#[trigger] all_frequent_itemsets@[n]).wf()
                    && all_frequent_itemsets@[n]@ == frequent_itemsets(all, num, min, n as nat),
        decreases k - size,
    {
        let ghost kept_before = views(transactions@);
        size += 1;
        transactions = retain_long(transactions, size);
        proof {
            lemma_keeps_support_filter(kept_before, all, (size - 1) as nat, size as nat);
            kept_before.lemma_filter_len(at_least(size as nat));
        }
        let frequent_itemset_counts = match all_frequent_itemsets.get(&(size - 1)) {
            Some(prev) => {
                let candidates = generate_candidates_from_prev(prev);
                proof {
                    lemma_next_level(
                        all,
                        views(transactions@),
                        num,
                        min,
                        size as nat,
                        views(candidates@),
                    );
                }
                generate_frequent_itemset_counts_from_candidates(
                    candidates,
                    transactions.as_slice(),
                    min_support_count,
                )
            },
            None => {
                // Not reached: the map holds a level for every size below.
                assert(all_frequent_itemsets@.contains_key((size - 1) as usize));
                ItemsetCounts::new()
            },
        };
        all_frequent_itemsets.insert(size, frequent_itemset_counts);
    }
    proof {
        assert forall|n: usize| 1 <= n <= k implies (#[trigger] all_frequent_itemsets@[n]).wf()
            && all_frequent_itemsets@[n]@ == mined(raw, min, n as nat) by {
            lemma_mined(raw, all, min, n as nat);
        }
    }
    (all_frequent_itemsets, inventory)
}

} // verus!
