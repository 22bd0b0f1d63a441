//! The frequent itemsets of each size, and why the level-wise search finds
//! exactly them.

use crate::combi::{is_join_candidate, is_pair_of};
use crate::counts::ItemsetCounts;
use crate::indexing::{
    frequent_items, inventory_of, is_inventory, is_normalized, lemma_inventory_distinct,
    lemma_normalized_support, raw_support_count, Label,
};
use crate::support::{contains_all, frequent_among, lemma_support_push, support_count};
use crate::types::strictly_increasing;
use vstd::prelude::*;

verus! {

/// `s` names `size` distinct items out of `num_items`, in ascending order.
pub open spec fn is_itemset(s: Seq<usize>, size: nat, num_items: nat) -> bool {
    &&& s.len() == size
    &&& strictly_increasing(s)
    &&& forall|i: int| 0 <= i < s.len() ==> s[i] < num_items
}

/// The itemsets of `size` items whose support count over `transactions`
/// reaches `min_support_count`, each mapped to that count.
pub open spec fn frequent_itemsets(
    transactions: Seq<Seq<usize>>,
    num_items: nat,
    min_support_count: nat,
    size: nat,
) -> Map<Seq<usize>, u32> {
    Map::new(
        |s: Seq<usize>|
            is_itemset(s, size, num_items) && support_count(transactions, s) >= min_support_count,
        |s: Seq<usize>| support_count(transactions, s) as u32,
    )
}

/// The counts of single items as counts of one-item itemsets.
pub open spec fn singleton_counts(item_counts: Map<usize, u32>) -> Map<Seq<usize>, u32> {
    Map::new(
        |s: Seq<usize>| s.len() == 1 && item_counts.contains_key(s[0]),
        |s: Seq<usize>| item_counts[s[0]],
    )
}

/// The pairs of `items` whose support count reaches `min_support_count`, each
/// mapped to that count.
pub open spec fn frequent_pairs(
    items: Seq<usize>,
    transactions: Seq<Seq<usize>>,
    min_support_count: nat,
) -> Map<Seq<usize>, u32> {
    Map::new(
        |s: Seq<usize>| is_pair_of(items, s) && support_count(transactions, s) >= min_support_count,
        |s: Seq<usize>| support_count(transactions, s) as u32,
    )
}

/// The transactions that hold at least `size` items.
pub open spec fn at_least(size: nat) -> spec_fn(Seq<usize>) -> bool {
    |t: Seq<usize>| t.len() >= size
}

/// Over `kept`, every itemset of at least `size` distinct items has the
/// support count that it has over `all`.
pub open spec fn keeps_support(kept: Seq<Seq<usize>>, all: Seq<Seq<usize>>, size: nat) -> bool {
    forall|s: Seq<usize>|
        s.no_duplicates() && s.len() >= size ==> #[trigger] support_count(kept, s) == support_count(
            all,
            s,
        )
}

/// An ascending sequence names no item twice.
pub proof fn lemma_increasing_distinct(s: Seq<usize>)
    requires
        strictly_increasing(s),
    ensures
        s.no_duplicates(),
{
    assert forall|i: int, j: int| 0 <= i < s.len() && 0 <= j < s.len() && i != j implies s[i]
        != s[j] by {
        if i < j {
            assert(s[i] < s[j]);
        } else {
            assert(s[j] < s[i]);
        }
    }
}

/// Leaving out one item of an itemset gives an itemset of the size below.
pub proof fn lemma_remove_keeps_itemset(itemset: Seq<usize>, r: int, size: nat, num_items: nat)
    requires
        is_itemset(itemset, size, num_items),
        0 <= r < itemset.len(),
    ensures
        is_itemset(itemset.remove(r), (size - 1) as nat, num_items),
{
    let part = itemset.remove(r);
    assert forall|i: int, j: int| 0 <= i < j < part.len() implies part[i] < part[j] by {
        let a = if i < r { i } else { i + 1 };
        let b = if j < r { j } else { j + 1 };
        assert(part[i] == itemset[a] && part[j] == itemset[b]);
    }
    assert forall|i: int| 0 <= i < part.len() implies part[i] < num_items by {
        let a = if i < r { i } else { i + 1 };
        assert(part[i] == itemset[a]);
    }
}

/// Anti-monotonicity of support: an itemset that holds every item of `small`
/// is contained in no more transactions than `small`.
pub proof fn lemma_support_antitone(
    transactions: Seq<Seq<usize>>,
    small: Seq<usize>,
    big: Seq<usize>,
)
    requires
        forall|i: int| 0 <= i < small.len() ==> big.contains(#[trigger] small[i]),
    ensures
        support_count(transactions, big) <= support_count(transactions, small),
    decreases transactions.len(),
{
    if transactions.len() > 0 {
        lemma_support_antitone(transactions.drop_last(), small, big);
        let last = transactions.last();
        if contains_all(last, big) {
            assert forall|i: int| 0 <= i < small.len() implies last.contains(#[trigger] small[i]) by {
                let j = choose|j: int| 0 <= j < big.len() && big[j] == small[i];
                assert(last.contains(big[j]));
            }
        }
    }
}

/// A transaction that contains `itemset` holds at least as many items as
/// `itemset` has distinct ones.
pub proof fn lemma_container_is_long(transaction: Seq<usize>, itemset: Seq<usize>)
    requires
        contains_all(transaction, itemset),
        itemset.no_duplicates(),
    ensures
        itemset.len() <= transaction.len(),
{
    itemset.unique_seq_to_set();
    transaction.lemma_cardinality_of_set();
    vstd::seq_lib::seq_to_set_is_finite(transaction);
    assert forall|x: usize| itemset.to_set().contains(x) implies transaction.to_set().contains(x) by {
        let i = choose|i: int| 0 <= i < itemset.len() && itemset[i] == x;
        assert(transaction.contains(itemset[i]));
    }
    vstd::set_lib::lemma_len_subset(itemset.to_set(), transaction.to_set());
}

/// Dropping the transactions of fewer than `size` items changes the support
/// count of no itemset of at least `size` distinct items.
pub proof fn lemma_support_of_long(transactions: Seq<Seq<usize>>, size: nat, itemset: Seq<usize>)
    requires
        itemset.no_duplicates(),
        itemset.len() >= size,
    ensures
        support_count(transactions.filter(at_least(size)), itemset) == support_count(
            transactions,
            itemset,
        ),
    decreases transactions.len(),
{
    reveal(Seq::filter);
    if transactions.len() > 0 {
        let rest = transactions.drop_last();
        let last = transactions.last();
        lemma_support_of_long(rest, size, itemset);
        if at_least(size)(last) {
            lemma_support_push(rest.filter(at_least(size)), last, itemset);
        } else if contains_all(last, itemset) {
            lemma_container_is_long(last, itemset);
        }
    }
}

/// Dropping short transactions keeps the support counts of the itemsets that
/// are still to be counted.
pub proof fn lemma_keeps_support_filter(
    kept: Seq<Seq<usize>>,
    all: Seq<Seq<usize>>,
    size: nat,
    next: nat,
)
    requires
        keeps_support(kept, all, size),
        size <= next,
    ensures
        keeps_support(kept.filter(at_least(next)), all, next),
{
    assert forall|s: Seq<usize>| s.no_duplicates() && s.len() >= next implies #[trigger] support_count(
        kept.filter(at_least(next)),
        s,
    ) == support_count(all, s) by {
        lemma_support_of_long(kept, next, s);
        assert(support_count(kept, s) == support_count(all, s));
    }
}

/// The counts of the frequent items are the frequent itemsets of size 1.
pub proof fn lemma_level_one(all: Seq<Seq<usize>>, num_items: nat, min_support_count: nat)
    ensures
        singleton_counts(frequent_items(all, num_items, min_support_count)) == frequent_itemsets(
            all,
            num_items,
            min_support_count,
            1,
        ),
{
    let singles = singleton_counts(frequent_items(all, num_items, min_support_count));
    let target = frequent_itemsets(all, num_items, min_support_count, 1);
    assert forall|s: Seq<usize>| s.len() == 1 implies s == seq![s[0]] by {
        assert(s =~= seq![s[0]]);
    }
    assert forall|s: Seq<usize>| singles.contains_key(s) <==> target.contains_key(s) by {
        if s.len() == 1 {
            assert(s == seq![s[0]]);
        }
    }
    assert forall|s: Seq<usize>| singles.contains_key(s) implies singles[s] == target[s] by {
        assert(s == seq![s[0]]);
    }
    assert(singles =~= target);
}

/// The frequent pairs of the frequent items are the frequent itemsets of
/// size 2.
pub proof fn lemma_level_two(
    all: Seq<Seq<usize>>,
    kept: Seq<Seq<usize>>,
    num_items: nat,
    min_support_count: nat,
    items: Seq<usize>,
)
    requires
        items.no_duplicates(),
        items.to_set() == frequent_items(all, num_items, min_support_count).dom(),
        keeps_support(kept, all, 2),
    ensures
        frequent_pairs(items, kept, min_support_count) == frequent_itemsets(
            all,
            num_items,
            min_support_count,
            2,
        ),
{
    let pairs = frequent_pairs(items, kept, min_support_count);
    let target = frequent_itemsets(all, num_items, min_support_count, 2);
    let singles = frequent_items(all, num_items, min_support_count);
    assert forall|s: Seq<usize>| #[trigger] pairs.contains_key(s) implies target.contains_key(s)
        && pairs[s] == target[s] by {
        let (i, j) = choose|i: int, j: int|
            0 <= i < items.len() && 0 <= j < items.len() && i != j && #[trigger] items[i] == s[0]
                && #[trigger] items[j] == s[1];
        assert(items.to_set().contains(items[i]) && items.to_set().contains(items[j]));
        assert(singles.contains_key(s[0]) && singles.contains_key(s[1]));
        assert(strictly_increasing(s));
        lemma_increasing_distinct(s);
        assert(support_count(kept, s) == support_count(all, s));
    }
    assert forall|s: Seq<usize>| #[trigger] target.contains_key(s) implies pairs.contains_key(s) by {
        lemma_increasing_distinct(s);
        assert(support_count(kept, s) == support_count(all, s));
        assert(s[0] < s[1]);
        let a = seq![s[0]];
        let b = seq![s[1]];
        assert(a[0] == s[0] && b[0] == s[1]);
        lemma_support_antitone(all, a, s);
        lemma_support_antitone(all, b, s);
        assert(singles.contains_key(s[0]) && singles.contains_key(s[1]));
        assert(items.to_set().contains(s[0]) && items.to_set().contains(s[1]));
        let i = choose|i: int| 0 <= i < items.len() && items[i] == s[0];
        let j = choose|j: int| 0 <= j < items.len() && items[j] == s[1];
        assert(items[i] == s[0] && items[j] == s[1] && i != j);
    }
    assert(pairs =~= target);
}

/// The frequent ones among the candidates over the frequent itemsets of one
/// size are the frequent itemsets of the next size.
pub proof fn lemma_next_level(
    all: Seq<Seq<usize>>,
    kept: Seq<Seq<usize>>,
    num_items: nat,
    min_support_count: nat,
    size: nat,
    candidates: Seq<Seq<usize>>,
)
    requires
        size >= 2,
        keeps_support(kept, all, size),
        forall|c: Seq<usize>|
            candidates.contains(c) <==> is_join_candidate(
                frequent_itemsets(all, num_items, min_support_count, (size - 1) as nat).dom(),
                c,
            ),
    ensures
        frequent_among(candidates, kept, min_support_count) == frequent_itemsets(
            all,
            num_items,
            min_support_count,
            size,
        ),
{
    let prev = frequent_itemsets(all, num_items, min_support_count, (size - 1) as nat);
    let found = frequent_among(candidates, kept, min_support_count);
    let target = frequent_itemsets(all, num_items, min_support_count, size);
    assert forall|c: Seq<usize>| #[trigger] found.contains_key(c) implies target.contains_key(c)
        && found[c] == target[c] by {
        assert(is_join_candidate(prev.dom(), c));
        let n = c.len() as int;
        let front = c.remove(n - 1);
        let back = c.remove(n - 2);
        assert(prev.dom().contains(front) && prev.dom().contains(back));
        assert(front.len() == n - 1 && back.len() == n - 1);
        assert forall|i: int, j: int| 0 <= i < j < n implies c[i] < c[j] by {
            if j < n - 1 {
                assert(front[i] == c[i] && front[j] == c[j]);
            } else if i < n - 2 {
                assert(front[i] == c[i] && front[n - 2] == c[n - 2]);
            }
        }
        assert forall|i: int| 0 <= i < n implies c[i] < num_items by {
            if i < n - 1 {
                assert(front[i] == c[i]);
            } else {
                assert(back[n - 2] == c[i]);
            }
        }
        lemma_increasing_distinct(c);
        assert(support_count(kept, c) == support_count(all, c));
    }
    assert forall|c: Seq<usize>| #[trigger] target.contains_key(c) implies found.contains_key(c) by {
        lemma_increasing_distinct(c);
        assert(support_count(kept, c) == support_count(all, c));
        assert forall|r: int| 0 <= r < c.len() implies prev.dom().contains(#[trigger] c.remove(r)) by {
            let part = c.remove(r);
            assert forall|i: int| 0 <= i < part.len() implies c.contains(#[trigger] part[i]) by {
                if i < r {
                    assert(part[i] == c[i]);
                } else {
                    assert(part[i] == c[i + 1]);
                }
            }
            lemma_remove_keeps_itemset(c, r, size, num_items);
            lemma_support_antitone(all, part, c);
        }
        assert(is_join_candidate(prev.dom(), c));
    }
    assert(found =~= target);
}

/// The itemsets of `size` items that at least `min_support_count` of the raw
/// transactions hold, each mapped to the number of raw transactions that
/// hold it. An item is named by its identifier: the index of its label in
/// `inventory_of(raw)`.
pub open spec fn mined(raw: Seq<Seq<Label>>, min_support_count: nat, size: nat) -> Map<
    Seq<usize>,
    u32,
> {
    let inventory = inventory_of(raw);
    Map::new(
        |s: Seq<usize>|
            is_itemset(s, size, inventory.len()) && raw_support_count(raw, inventory, s)
                >= min_support_count,
        |s: Seq<usize>| raw_support_count(raw, inventory, s) as u32,
    )
}

/// `levels` and `inventory` are the result of mining `raw` up to itemsets of
/// `max_size` items: one level for each size from 1 to `max_size`, which
/// holds exactly the frequent itemsets of that size with their support
/// counts, and the label of every identifier. With `max_size` 0 both are
/// empty.
pub open spec fn is_mining_result(
    raw: Seq<Seq<Label>>,
    min_support_count: nat,
    max_size: nat,
    levels: Map<usize, ItemsetCounts>,
    inventory: Map<usize, &str>,
) -> bool {
    &&& forall|n: usize| #[trigger] levels.contains_key(n) <==> 1 <= n <= max_size
    &&& forall|n: usize|
        1 <= n <= max_size ==> (#[trigger] levels[n]).wf() && levels[n]@ == mined(
            raw,
            min_support_count,
            n as nat,
        )
    &&& if max_size == 0 {
        forall|id: usize| !inventory.contains_key(id)
    } else {
        is_inventory(inventory, inventory_of(raw))
    }
}

/// The frequent itemsets over the normalized transactions are the frequent
/// itemsets over the raw ones.
pub proof fn lemma_mined(
    raw: Seq<Seq<Label>>,
    transactions: Seq<Seq<usize>>,
    min_support_count: nat,
    size: nat,
)
    requires
        transactions.len() == raw.len(),
        forall|t: int|
            0 <= t < raw.len() ==> is_normalized(#[trigger] transactions[t], raw[t], inventory_of(raw)),
    ensures
        frequent_itemsets(transactions, inventory_of(raw).len(), min_support_count, size) == mined(
            raw,
            min_support_count,
            size,
        ),
{
    let inventory = inventory_of(raw);
    let over_ids = frequent_itemsets(transactions, inventory.len(), min_support_count, size);
    let over_raw = mined(raw, min_support_count, size);
    lemma_inventory_distinct(raw);
    assert forall|s: Seq<usize>| is_itemset(s, size, inventory.len()) implies support_count(
        transactions,
        s,
    ) == raw_support_count(raw, inventory, s) by {
        lemma_normalized_support(raw, inventory, transactions, s);
    }
    assert forall|s: Seq<usize>| #[trigger] over_ids.contains_key(s) <==> over_raw.contains_key(s) by {}
    assert(over_ids =~= over_raw);
}

} // verus!
