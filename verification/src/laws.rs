//! What holds of every mining result, stated over the models that the
//! contracts of the engine use.

use crate::counts::ItemsetCounts;
use crate::indexing::{
    extend_inventory, holds_items, inventory_of, is_indexing, is_normalized,
    lemma_inventory_distinct, names_label, raw_support_count, Label,
};
use crate::levels::{is_itemset, is_mining_result, lemma_remove_keeps_itemset, mined};
use crate::types::strictly_increasing;
use vstd::prelude::*;

verus! {

/// A raw transaction that holds an itemset holds each part of it, so a part
/// is held by at least as many raw transactions as the whole.
pub proof fn lemma_raw_support_antitone(
    raw: Seq<Seq<Label>>,
    inventory: Seq<Label>,
    itemset: Seq<usize>,
    r: int,
)
    requires
        0 <= r < itemset.len(),
    ensures
        raw_support_count(raw, inventory, itemset) <= raw_support_count(
            raw,
            inventory,
            itemset.remove(r),
        ),
    decreases raw.len(),
{
    if raw.len() > 0 {
        lemma_raw_support_antitone(raw.drop_last(), inventory, itemset, r);
        let part = itemset.remove(r);
        if holds_items(raw.last(), inventory, itemset) {
            assert forall|i: int| 0 <= i < part.len() implies (#[trigger] part[i]) < inventory.len()
                && raw.last().contains(inventory[part[i] as int]) by {
                let a = if i < r { i } else { i + 1 };
                assert(part[i] == itemset[a]);
            }
        }
    }
}

/// The number of raw transactions that hold an itemset is at most their
/// number.
pub proof fn lemma_raw_support_bounded(
    raw: Seq<Seq<Label>>,
    inventory: Seq<Label>,
    itemset: Seq<usize>,
)
    ensures
        raw_support_count(raw, inventory, itemset) <= raw.len(),
    decreases raw.len(),
{
    if raw.len() > 0 {
        lemma_raw_support_bounded(raw.drop_last(), inventory, itemset);
    }
}

/// Anti-monotonicity: every frequent itemset of two or more items has each
/// of its parts that lack one item among the frequent itemsets of the size
/// below, and no part is held by fewer raw transactions than the whole.
pub proof fn law_anti_monotone(
    raw: Seq<Seq<Label>>,
    min_support_count: nat,
    max_size: nat,
    levels: Map<usize, ItemsetCounts>,
    inventory: Map<usize, &str>,
    size: usize,
    itemset: Seq<usize>,
    r: int,
)
    requires
        is_mining_result(raw, min_support_count, max_size, levels, inventory),
        2 <= size <= max_size,
        levels[size]@.contains_key(itemset),
        0 <= r < itemset.len(),
    ensures
        levels[(size - 1) as usize]@.contains_key(itemset.remove(r)),
        raw_support_count(raw, inventory_of(raw), itemset.remove(r)) >= raw_support_count(
            raw,
            inventory_of(raw),
            itemset,
        ),
        raw_support_count(raw, inventory_of(raw), itemset.remove(r)) >= min_support_count,
{
    let below = (size - 1) as usize;
    assert(levels[size]@ == mined(raw, min_support_count, size as nat));
    assert(levels[below]@ == mined(raw, min_support_count, below as nat));
    lemma_remove_keeps_itemset(itemset, r, size as nat, inventory_of(raw).len());
    lemma_raw_support_antitone(raw, inventory_of(raw), itemset, r);
}

/// Support correctness: the count recorded for a returned itemset is the
/// exact number of raw transactions that hold all its items.
pub proof fn law_support_exact(
    raw: Seq<Seq<Label>>,
    min_support_count: nat,
    max_size: nat,
    levels: Map<usize, ItemsetCounts>,
    inventory: Map<usize, &str>,
    size: usize,
    itemset: Seq<usize>,
)
    requires
        raw.len() <= u32::MAX,
        is_mining_result(raw, min_support_count, max_size, levels, inventory),
        1 <= size <= max_size,
        levels[size]@.contains_key(itemset),
    ensures
        levels[size]@[itemset] == raw_support_count(raw, inventory_of(raw), itemset),
{
    assert(levels[size]@ == mined(raw, min_support_count, size as nat));
    lemma_raw_support_bounded(raw, inventory_of(raw), itemset);
}

/// Threshold correctness: a level holds an itemset of its size exactly if at
/// least `min_support_count` raw transactions hold it. No itemset below the
/// threshold is returned, and none that reaches it is missed.
pub proof fn law_threshold(
    raw: Seq<Seq<Label>>,
    min_support_count: nat,
    max_size: nat,
    levels: Map<usize, ItemsetCounts>,
    inventory: Map<usize, &str>,
    size: usize,
    itemset: Seq<usize>,
)
    requires
        is_mining_result(raw, min_support_count, max_size, levels, inventory),
        1 <= size <= max_size,
    ensures
        levels[size]@.contains_key(itemset) <==> is_itemset(
            itemset,
            size as nat,
            inventory_of(raw).len(),
        ) && raw_support_count(raw, inventory_of(raw), itemset) >= min_support_count,
{
    assert(levels[size]@ == mined(raw, min_support_count, size as nat));
}

/// Extending an inventory keeps its labels at their indices and takes in
/// every further label.
pub proof fn lemma_extend_inventory_holds(seen: Seq<Label>, labels: Seq<Label>)
    ensures
        seen.len() <= extend_inventory(seen, labels).len(),
        forall|i: int| 0 <= i < seen.len() ==> extend_inventory(seen, labels)[i] == seen[i],
        forall|j: int|
            0 <= j < labels.len() ==> extend_inventory(seen, labels).contains(#[trigger] labels[j]),
    decreases labels.len(),
{
    if labels.len() > 0 {
        let rest = labels.drop_last();
        lemma_extend_inventory_holds(seen, rest);
        let before = extend_inventory(seen, rest);
        let after = extend_inventory(seen, labels);
        assert forall|j: int| 0 <= j < labels.len() implies after.contains(#[trigger] labels[j]) by {
            if j < rest.len() {
                assert(rest[j] == labels[j]);
                assert(before.contains(rest[j]));
                let i = choose|i: int| 0 <= i < before.len() && before[i] == labels[j];
                assert(after[i] == labels[j]);
            } else if before.contains(labels.last()) {
            } else {
                assert(after[before.len() as int] == labels[j]);
            }
        }
    }
}

/// Every label of the raw transactions stands in the inventory.
pub proof fn lemma_inventory_complete(raw: Seq<Seq<Label>>, t: int, j: int)
    requires
        0 <= t < raw.len(),
        0 <= j < raw[t].len(),
    ensures
        inventory_of(raw).contains(raw[t][j]),
    decreases raw.len(),
{
    let rest = raw.drop_last();
    lemma_extend_inventory_holds(inventory_of(rest), raw.last());
    if t < raw.len() - 1 {
        lemma_inventory_complete(rest, t, j);
        let before = inventory_of(rest);
        let i = choose|i: int| 0 <= i < before.len() && before[i] == raw[t][j];
        assert(inventory_of(raw)[i] == raw[t][j]);
    }
}

/// Identifier stability: the identifier of a label is the index of the label
/// in the inventory, so going from an identifier to its label and back gives
/// the identifier, and going from a label of the raw transactions to its
/// identifier and back gives the label.
pub proof fn law_identifier_stability(raw: Seq<Seq<Label>>)
    ensures
        forall|id: int|
            0 <= id < inventory_of(raw).len() ==> inventory_of(raw).index_of(
                #[trigger] inventory_of(raw)[id],
            ) == id,
        forall|t: int, j: int|
            0 <= t < raw.len() && 0 <= j < raw[t].len() ==> {
                let id = inventory_of(raw).index_of(#[trigger] raw[t][j]);
                0 <= id < inventory_of(raw).len() && inventory_of(raw)[id] == raw[t][j]
            },
{
    let inventory = inventory_of(raw);
    lemma_inventory_distinct(raw);
    assert forall|id: int| 0 <= id < inventory.len() implies inventory.index_of(
        #[trigger] inventory[id],
    ) == id by {
        assert(inventory.contains(inventory[id]));
    }
    assert forall|t: int, j: int| 0 <= t < raw.len() && 0 <= j < raw[t].len() implies {
        let id = inventory.index_of(#[trigger] raw[t][j]);
        0 <= id < inventory.len() && inventory[id] == raw[t][j]
    } by {
        lemma_inventory_complete(raw, t, j);
    }
}

/// Two ascending sequences that hold the same items are equal.
pub proof fn lemma_increasing_same_items(a: Seq<usize>, b: Seq<usize>)
    requires
        strictly_increasing(a),
        strictly_increasing(b),
        forall|x: usize| a.contains(x) <==> b.contains(x),
    ensures
        a == b,
    decreases a.len(),
{
    if a.len() == 0 {
        if b.len() > 0 {
            assert(b.contains(b[0]));
        }
        assert(a =~= b);
    } else {
        assert(a.contains(a.last()));
        let k = choose|k: int| 0 <= k < b.len() && b[k] == a.last();
        assert(b.contains(b.last()));
        let m = choose|m: int| 0 <= m < a.len() && a[m] == b.last();
        assert(a.last() == b.last()) by {
            if k < b.len() - 1 {
                assert(b[k] < b[b.len() - 1]);
            }
            if m < a.len() - 1 {
                assert(a[m] < a[a.len() - 1]);
            }
        }
        let front_a = a.drop_last();
        let front_b = b.drop_last();
        assert forall|x: usize| front_a.contains(x) <==> front_b.contains(x) by {
            if front_a.contains(x) {
                let i = choose|i: int| 0 <= i < front_a.len() && front_a[i] == x;
                assert(a[i] == x && a[i] < a[a.len() - 1]);
                assert(a.contains(x));
                let q = choose|q: int| 0 <= q < b.len() && b[q] == x;
                assert(front_b[q] == x);
            }
            if front_b.contains(x) {
                let i = choose|i: int| 0 <= i < front_b.len() && front_b[i] == x;
                assert(b[i] == x && b[i] < b[b.len() - 1]);
                assert(b.contains(x));
                let q = choose|q: int| 0 <= q < a.len() && a[q] == x;
                assert(front_a[q] == x);
            }
        }
        lemma_increasing_same_items(front_a, front_b);
        assert(a =~= front_a.push(a.last()));
        assert(b =~= front_b.push(b.last()));
    }
}

/// A raw transaction has one normal form only.
pub proof fn lemma_normal_form_unique(
    a: Seq<usize>,
    b: Seq<usize>,
    raw_transaction: Seq<Label>,
    inventory: Seq<Label>,
)
    requires
        inventory.no_duplicates(),
        is_normalized(a, raw_transaction, inventory),
        is_normalized(b, raw_transaction, inventory),
    ensures
        a == b,
{
    assert forall|x: usize| a.contains(x) <==> b.contains(x) by {
        if a.contains(x) {
            let i = choose|i: int| 0 <= i < a.len() && a[i] == x;
            assert(raw_transaction.contains(inventory[a[i] as int]));
            let j = choose|j: int|
                0 <= j < raw_transaction.len() && raw_transaction[j] == inventory[x as int];
            assert(names_label(b, inventory, raw_transaction[j]));
            let k = choose|k: int|
                0 <= k < b.len() && (#[trigger] b[k]) < inventory.len() && inventory[b[k] as int]
                    == raw_transaction[j];
            assert(b[k] == x);
        }
        if b.contains(x) {
            let i = choose|i: int| 0 <= i < b.len() && b[i] == x;
            assert(raw_transaction.contains(inventory[b[i] as int]));
            let j = choose|j: int|
                0 <= j < raw_transaction.len() && raw_transaction[j] == inventory[x as int];
            assert(names_label(a, inventory, raw_transaction[j]));
            let k = choose|k: int|
                0 <= k < a.len() && (#[trigger] a[k]) < inventory.len() && inventory[a[k] as int]
                    == raw_transaction[j];
            assert(a[k] == x);
        }
    }
    lemma_increasing_same_items(a, b);
}

/// Indexing is a function of its input: two results of indexing the same raw
/// transactions under the same threshold hold the same counts, the same
/// label for every identifier, and the same normalized transactions.
pub proof fn law_indexing_deterministic(
    raw: Seq<Seq<Label>>,
    min_support_count: nat,
    item_counts_1: Map<usize, u32>,
    inventory_1: Map<usize, &str>,
    transactions_1: Seq<Seq<usize>>,
    item_counts_2: Map<usize, u32>,
    inventory_2: Map<usize, &str>,
    transactions_2: Seq<Seq<usize>>,
)
    requires
        is_indexing(raw, min_support_count, item_counts_1, inventory_1, transactions_1),
        is_indexing(raw, min_support_count, item_counts_2, inventory_2, transactions_2),
    ensures
        item_counts_1 == item_counts_2,
        transactions_1 == transactions_2,
        inventory_1.dom() == inventory_2.dom(),
        forall|id: usize| inventory_1.contains_key(id) ==> inventory_1[id]@ == inventory_2[id]@,
{
    lemma_inventory_distinct(raw);
    assert forall|t: int| 0 <= t < raw.len() implies transactions_1[t] == transactions_2[t] by {
        lemma_normal_form_unique(transactions_1[t], transactions_2[t], raw[t], inventory_of(raw));
    }
    assert(transactions_1 =~= transactions_2);
    assert(inventory_1.dom() =~= inventory_2.dom());
}

} // verus!
