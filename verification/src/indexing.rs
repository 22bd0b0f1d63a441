//! Item indexing: dense identifiers for raw labels, in first-seen order, and
//! the normal form of a transaction.

use crate::support::{
    contains_all, lemma_support_count_bounded, lemma_support_push, support_count,
};
use crate::types::{strictly_increasing, views, RawTransaction, Transaction};
use vstd::hash_map::StringHashMap;
use vstd::prelude::*;

verus! {

/// The mathematical view of a raw label.
pub type Label = Seq<char>;

/// The mathematical view of a list of raw labels.
pub open spec fn label_views(labels: Seq<&str>) -> Seq<Label> {
    labels.map_values(|l: &str| l@)
}

/// The mathematical view of a list of raw transactions.
pub open spec fn raw_views(raw: Seq<Vec<&str>>) -> Seq<Seq<Label>> {
    raw.map_values(|t: Vec<&str>| label_views(t@))
}

/// `seen`, followed by those of `labels` that are new, in the order in which
/// they first occur.
pub open spec fn extend_inventory(seen: Seq<Label>, labels: Seq<Label>) -> Seq<Label>
    decreases labels.len(),
{
    if labels.len() == 0 {
        seen
    } else {
        let before = extend_inventory(seen, labels.drop_last());
        if before.contains(labels.last()) {
            before
        } else {
            before.push(labels.last())
        }
    }
}

/// The distinct labels of `raw` in the order of their first appearance. The
/// label at index `id` is the one that gets the identifier `id`.
pub open spec fn inventory_of(raw: Seq<Seq<Label>>) -> Seq<Label>
    decreases raw.len(),
{
    if raw.len() == 0 {
        Seq::empty()
    } else {
        extend_inventory(inventory_of(raw.drop_last()), raw.last())
    }
}

/// `transaction` holds the identifier that `inventory` gives to `label`.
pub open spec fn names_label(transaction: Seq<usize>, inventory: Seq<Label>, label: Label) -> bool {
    exists|i: int|
        0 <= i < transaction.len() && (#[trigger] transaction[i]) < inventory.len()
            && inventory[transaction[i] as int] == label
}

/// `transaction` is the normal form of `raw_transaction` under `inventory`:
/// the identifiers of its labels, each once, in ascending order.
pub open spec fn is_normalized(
    transaction: Seq<usize>,
    raw_transaction: Seq<Label>,
    inventory: Seq<Label>,
) -> bool {
    &&& strictly_increasing(transaction)
    &&& forall|i: int|
        0 <= i < transaction.len() ==> (#[trigger] transaction[i]) < inventory.len()
            && raw_transaction.contains(inventory[transaction[i] as int])
    &&& forall|j: int|
        0 <= j < raw_transaction.len() ==> names_label(
            transaction,
            inventory,
            #[trigger] raw_transaction[j],
        )
}

/// `lookup` maps each label of `inventory` to its index, and nothing else.
pub open spec fn is_reverse_lookup(lookup: Map<Label, usize>, inventory: Seq<Label>) -> bool {
    &&& forall|id: int|
        0 <= id < inventory.len() ==> lookup.contains_key(#[trigger] inventory[id])
            && lookup[inventory[id]] == id
    &&& forall|l: Label| #[trigger]
        lookup.contains_key(l) ==> lookup[l] < inventory.len() && inventory[lookup[l] as int] == l
}

/// Puts `id` at its place in the ascending `items`, unless it is there
/// already, and tells whether it was put in.
pub fn insert_sorted(items: &mut Transaction, id: usize) -> (inserted: bool)
    requires
        strictly_increasing(old(items)@),
    ensures
        strictly_increasing(final(items)@),
        inserted == !old(items)@.contains(id),
        !inserted ==> final(items)@ == old(items)@,
        forall|x: usize| final(items)@.contains(x) <==> old(items)@.contains(x) || x == id,
{
    let ghost before = items@;
    let mut pos: usize = items.len();
    while pos > 0 && items[pos - 1] > id
        invariant
            pos <= items.len(),
            items@ == before,
            forall|k: int| pos <= k < items.len() ==> items@[k] > id,
        decreases pos,
    {
        pos -= 1;
    }
    if pos > 0 && items[pos - 1] == id {
        assert(before[pos - 1] == id);
        return false;
    }
    items.insert(pos, id);
    proof {
        let after = items@;
        assert(after =~= before.insert(pos as int, id));
        assert forall|x: usize| after.contains(x) <==> before.contains(x) || x == id by {
            if after.contains(x) {
                let i = choose|i: int| 0 <= i < after.len() && after[i] == x;
                if i < pos {
                    assert(before[i] == x);
                } else if i > pos {
                    assert(before[i - 1] == x);
                }
            }
            if before.contains(x) {
                let i = choose|i: int| 0 <= i < before.len() && before[i] == x;
                if i < pos {
                    assert(after[i] == x);
                } else {
                    assert(after[i + 1] == x);
                }
            }
            assert(after[pos as int] == id);
        }
        assert forall|i: int, j: int| 0 <= i < j < after.len() implies after[i] < after[j] by {
            let a = if i < pos { i } else { i - 1 };
            let b = if j < pos { j } else { j - 1 };
            if i != pos && j != pos {
                assert(before[a] < before[b]);
            } else if i == pos {
                assert(before[b] > id);
            } else {
                if pos > 0 {
                    assert(before[a] <= before[pos - 1]) by {
                        if a < pos - 1 {
                            assert(before[a] < before[pos - 1]);
                        }
                    }
                }
            }
        }
        if before.contains(id) {
            let i = choose|i: int| 0 <= i < before.len() && before[i] == id;
            if i < pos {
                if i < pos - 1 {
                    assert(before[i] < before[pos - 1]);
                }
            }
        }
    }
    true
}

/// The identifier of `label`: the one it has, or else the next free one,
/// which is then recorded for it.
pub(crate) fn intern<'a>(
    label: &'a str,
    lookup: &mut StringHashMap<usize>,
    labels: &mut Vec<&'a str>,
) -> (id: usize)
    requires
        is_reverse_lookup(old(lookup)@, label_views(old(labels)@)),
    ensures
        is_reverse_lookup(final(lookup)@, label_views(final(labels)@)),
        label_views(final(labels)@) == extend_inventory(label_views(old(labels)@), seq![label@]),
        id < final(labels).len(),
        final(labels)@[id as int]@ == label@,
        id < old(labels).len() <==> label_views(old(labels)@).contains(label@),
        final(labels)@.take(old(labels).len() as int) == old(labels)@,
        final(labels).len() == old(labels).len() || final(labels)@ == old(labels)@.push(label),
{
    let ghost inv = label_views(labels@);
    proof {
        let one = seq![label@];
        assert(one.drop_last() =~= Seq::<Label>::empty());
        assert(one.last() == label@);
        assert(extend_inventory(inv, one.drop_last()) == inv);
    }
    match lookup.get(label) {
        Some(id) => {
            proof {
                assert(inv[*id as int] == label@);
                assert(inv.contains(label@));
                assert(labels@.take(labels.len() as int) =~= labels@);
            }
            *id
        },
        None => {
            let id = labels.len();
            proof {
                if inv.contains(label@) {
                    let i = choose|i: int| 0 <= i < inv.len() && inv[i] == label@;
                    assert(lookup@.contains_key(inv[i]));
                }
            }
            lookup.insert(label.to_owned(), id);
            labels.push(label);
            proof {
                let after = label_views(labels@);
                assert(after =~= inv.push(label@));
                assert(labels@.take(id as int) =~= old(labels)@);
                assert forall|i: int| 0 <= i < after.len() implies lookup@.contains_key(
                    #[trigger] after[i],
                ) && lookup@[after[i]] == i by {
                    if i < id {
                        assert(after[i] == inv[i]);
                        assert(inv.contains(inv[i]));
                    }
                }
            }
            id
        },
    }
}

/// What one raw transaction adds to a running count: one for each identifier
/// that `items` holds.
pub open spec fn counted(base: int, items: Seq<usize>, id: int) -> int {
    base + if items.contains(id as usize) {
        1int
    } else {
        0int
    }
}

/// Normalizes one raw transaction: gives each of its labels its identifier,
/// extends the inventory by the labels that are new, and adds one to the
/// count of each identifier that the transaction holds.
pub(crate) fn normalize_transaction<'a>(
    raw_transaction: &RawTransaction<'a>,
    lookup: &mut StringHashMap<usize>,
    labels: &mut Vec<&'a str>,
    counts: &mut Vec<u32>,
) -> (items: Transaction)
    requires
        is_reverse_lookup(old(lookup)@, label_views(old(labels)@)),
        old(counts).len() == old(labels).len(),
        forall|id: int| 0 <= id < old(counts).len() ==> old(counts)@[id] < u32::MAX,
    ensures
        is_reverse_lookup(final(lookup)@, label_views(final(labels)@)),
        final(counts).len() == final(labels).len(),
        final(labels).len() >= old(labels).len(),
        final(labels)@.take(old(labels).len() as int) == old(labels)@,
        label_views(final(labels)@) == extend_inventory(
            label_views(old(labels)@),
            label_views(raw_transaction@),
        ),
        is_normalized(items@, label_views(raw_transaction@), label_views(final(labels)@)),
        forall|id: int|
            0 <= id < final(counts).len() ==> (#[trigger] final(counts)@[id]) == counted(
                if id < old(counts).len() {
                    old(counts)@[id] as int
                } else {
                    0
                },
                items@,
                id,
            ),
{
    let ghost raw = label_views(raw_transaction@);
    let ghost old_labels = labels@;
    let ghost old_counts = counts@;
    let ghost old_inv = label_views(labels@);
    let mut items: Transaction = Vec::new();
    let mut j: usize = 0;
    proof {
        assert(raw.take(0) =~= Seq::<Label>::empty());
        assert(labels@.take(labels.len() as int) =~= labels@);
    }
    while j < raw_transaction.len()
        invariant
            j <= raw_transaction.len(),
            raw == label_views(raw_transaction@),
            old_inv == label_views(old_labels),
            old_counts.len() == old_labels.len(),
            forall|id: int| 0 <= id < old_counts.len() ==> old_counts[id] < u32::MAX,
            is_reverse_lookup(lookup@, label_views(labels@)),
            counts.len() == labels.len(),
            labels.len() >= old_labels.len(),
            labels@.take(old_labels.len() as int) == old_labels,
            label_views(labels@) == extend_inventory(old_inv, raw.take(j as int)),
            is_normalized(items@, raw.take(j as int), label_views(labels@)),
            forall|id: int|
                0 <= id < counts.len() ==> (#[trigger] counts@[id]) == counted(
                    if id < old_counts.len() {
                        old_counts[id] as int
                    } else {
                        0
                    },
                    items@,
                    id,
                ),
        decreases raw_transaction.len() - j,
    {
        let label: &'a str = raw_transaction[j];
        let ghost inv = label_views(labels@);
        let ghost labels_before = labels@;
        let ghost items_before = items@;
        let ghost counts_before = counts@;
        let id = intern(label, lookup, labels);
        let inserted = insert_sorted(&mut items, id);
        if counts.len() < labels.len() {
            counts.push(0);
        }
        if inserted {
            let count = counts[id];
            counts.set(id, count + 1);
        }
        proof {
            let inv2 = label_views(labels@);
            let seen = raw.take(j as int);
            let seen2 = raw.take(j + 1);
            assert(raw[j as int] == label@);
            assert(seen2.drop_last() =~= seen);
            assert(seen2.last() == label@);
            let one = seq![label@];
            assert(one.drop_last() =~= Seq::<Label>::empty());
            assert(extend_inventory(inv, one.drop_last()) == inv);
            assert(inv2 == extend_inventory(old_inv, seen2));
            assert(labels@.take(old_labels.len() as int) =~= old_labels) by {
                assert(labels@.take(labels_before.len() as int) == labels_before);
                assert forall|i: int| 0 <= i < old_labels.len() implies labels@[i] == old_labels[i] by {
                    assert(labels@.take(labels_before.len() as int)[i] == labels@[i]);
                    assert(labels_before.take(old_labels.len() as int)[i] == labels_before[i]);
                }
            }
            assert forall|i: int| 0 <= i < inv.len() implies inv2[i] == inv[i] by {
                assert(labels@.take(labels_before.len() as int)[i] == labels@[i]);
            }
            assert forall|i: int| 0 <= i < items@.len() implies (#[trigger] items@[i]) < inv2.len()
                && seen2.contains(inv2[items@[i] as int]) by {
                let x = items@[i];
                assert(items@.contains(x));
                if x == id {
                    assert(seen2[j as int] == label@);
                } else {
                    assert(items_before.contains(x));
                    let k = choose|k: int| 0 <= k < items_before.len() && items_before[k] == x;
                    assert(seen.contains(inv[items_before[k] as int]));
                    let w = choose|w: int| 0 <= w < seen.len() && seen[w] == inv[x as int];
                    assert(seen2[w] == inv[x as int]);
                }
            }
            assert forall|jj: int| 0 <= jj < seen2.len() implies names_label(
                items@,
                inv2,
                #[trigger] seen2[jj],
            ) by {
                if jj < j {
                    assert(seen[jj] == seen2[jj]);
                    assert(names_label(items_before, inv, seen[jj]));
                    let k = choose|k: int|
                        0 <= k < items_before.len() && (#[trigger] items_before[k]) < inv.len()
                            && inv[items_before[k] as int] == seen[jj];
                    let x = items_before[k];
                    assert(items_before.contains(x));
                    assert(items@.contains(x));
                    let i = choose|i: int| 0 <= i < items@.len() && items@[i] == x;
                    assert(items@[i] < inv2.len() && inv2[items@[i] as int] == seen2[jj]);
                } else {
                    assert(items@.contains(id));
                    let i = choose|i: int| 0 <= i < items@.len() && items@[i] == id;
                    assert(items@[i] < inv2.len() && inv2[items@[i] as int] == seen2[jj]);
                }
            }
            assert forall|x: int| 0 <= x < counts.len() implies (#[trigger] counts@[x]) == counted(
                if x < old_counts.len() {
                    old_counts[x] as int
                } else {
                    0
                },
                items@,
                x,
            ) by {
                if x < counts_before.len() {
                    assert(counts_before[x] == counted(
                        if x < old_counts.len() {
                            old_counts[x] as int
                        } else {
                            0
                        },
                        items_before,
                        x,
                    ));
                } else {
                    assert(x == id);
                    assert(!items_before.contains(id)) by {
                        if items_before.contains(id) {
                            let k = choose|k: int| 0 <= k < items_before.len() && items_before[k] == id;
                            assert(items_before[k] < inv.len());
                        }
                    }
                }
            }
        }
        j += 1;
    }
    proof {
        assert(raw.take(j as int) =~= raw);
    }
    items
}

/// The items whose support count reaches `min_support_count`, each mapped to
/// that count.
pub open spec fn frequent_items(
    transactions: Seq<Seq<usize>>,
    num_items: nat,
    min_support_count: nat,
) -> Map<usize, u32> {
    Map::new(
        |id: usize| id < num_items && support_count(transactions, seq![id]) >= min_support_count,
        |id: usize| support_count(transactions, seq![id]) as u32,
    )
}

/// `inventory` maps each identifier to its label in `labels`, and nothing
/// else.
pub open spec fn is_inventory(inventory: Map<usize, &str>, labels: Seq<Label>) -> bool {
    &&& forall|id: usize| #[trigger] inventory.contains_key(id) <==> id < labels.len()
    &&& forall|id: usize| id < labels.len() ==> (#[trigger] inventory[id])@ == labels[id as int]
}

/// Every item of `itemset` is the identifier of a label of `raw_transaction`.
pub open spec fn holds_items(
    raw_transaction: Seq<Label>,
    inventory: Seq<Label>,
    itemset: Seq<usize>,
) -> bool {
    forall|i: int|
        0 <= i < itemset.len() ==> (#[trigger] itemset[i]) < inventory.len()
            && raw_transaction.contains(inventory[itemset[i] as int])
}

/// The number of raw transactions that hold the label of every item of
/// `itemset`.
pub open spec fn raw_support_count(
    raw: Seq<Seq<Label>>,
    inventory: Seq<Label>,
    itemset: Seq<usize>,
) -> nat
    decreases raw.len(),
{
    if raw.len() == 0 {
        0
    } else {
        raw_support_count(raw.drop_last(), inventory, itemset) + if holds_items(
            raw.last(),
            inventory,
            itemset,
        ) {
            1nat
        } else {
            0nat
        }
    }
}

/// `item_counts`, `inventory` and `transactions` are what indexing makes of
/// the raw transactions `raw` under the threshold `min_support_count`.
pub open spec fn is_indexing(
    raw: Seq<Seq<Label>>,
    min_support_count: nat,
    item_counts: Map<usize, u32>,
    inventory: Map<usize, &str>,
    transactions: Seq<Seq<usize>>,
) -> bool {
    let labels = inventory_of(raw);
    &&& is_inventory(inventory, labels)
    &&& transactions.len() == raw.len()
    &&& forall|t: int|
        0 <= t < raw.len() ==> is_normalized(#[trigger] transactions[t], raw[t], labels)
    &&& item_counts == frequent_items(transactions, labels.len(), min_support_count)
}

/// An identifier that no transaction holds has support count 0.
pub proof fn lemma_support_of_absent(done: Seq<Seq<usize>>, id: usize)
    requires
        forall|u: int| 0 <= u < done.len() ==> !(#[trigger] done[u]).contains(id),
    ensures
        support_count(done, seq![id]) == 0,
    decreases done.len(),
{
    if done.len() > 0 {
        lemma_support_of_absent(done.drop_last(), id);
        assert(seq![id][0] == id);
        assert(!done[done.len() - 1].contains(id));
    }
}

/// A normal form stays one when the inventory grows at its end.
pub proof fn lemma_normalized_extends(
    transaction: Seq<usize>,
    raw_transaction: Seq<Label>,
    inventory: Seq<Label>,
    longer: Seq<Label>,
)
    requires
        is_normalized(transaction, raw_transaction, inventory),
        inventory.len() <= longer.len(),
        forall|i: int| 0 <= i < inventory.len() ==> longer[i] == inventory[i],
    ensures
        is_normalized(transaction, raw_transaction, longer),
{
    assert forall|i: int| 0 <= i < transaction.len() implies (#[trigger] transaction[i])
        < longer.len() && raw_transaction.contains(longer[transaction[i] as int]) by {
        assert(longer[transaction[i] as int] == inventory[transaction[i] as int]);
    }
    assert forall|j: int| 0 <= j < raw_transaction.len() implies names_label(
        transaction,
        longer,
        #[trigger] raw_transaction[j],
    ) by {
        assert(names_label(transaction, inventory, raw_transaction[j]));
        let i = choose|i: int|
            0 <= i < transaction.len() && (#[trigger] transaction[i]) < inventory.len()
                && inventory[transaction[i] as int] == raw_transaction[j];
        assert(transaction[i] < longer.len() && longer[transaction[i] as int] == raw_transaction[j]);
    }
}

/// The indexing pass: reads the raw transactions in order and returns the
/// label of each identifier, the support count of each identifier, and the
/// normalized transactions.
pub(crate) fn index_transactions<'a>(raw_transactions: &Vec<RawTransaction<'a>>) -> (r: (
    Vec<&'a str>,
    Vec<u32>,
    Vec<Transaction>,
))
    requires
        raw_transactions.len() <= u32::MAX,
    ensures
        label_views(r.0@) == inventory_of(raw_views(raw_transactions@)),
        r.1.len() == r.0.len(),
        forall|id: int|
            0 <= id < r.1.len() ==> (#[trigger] r.1@[id]) == support_count(
                views(r.2@),
                seq![id as usize],
            ),
        r.2.len() == raw_transactions.len(),
        forall|t: int|
            0 <= t < r.2.len() ==> is_normalized(
                #[trigger] r.2@[t]@,
                raw_views(raw_transactions@)[t],
                label_views(r.0@),
            ),
{
    let ghost raw = raw_views(raw_transactions@);
    let mut lookup: StringHashMap<usize> = StringHashMap::new();
    let mut labels: Vec<&'a str> = Vec::new();
    let mut counts: Vec<u32> = Vec::new();
    let mut transactions: Vec<Transaction> = Vec::new();
    let mut t: usize = 0;
    proof {
        assert(raw.take(0) =~= Seq::<Seq<Label>>::empty());
    }
    while t < raw_transactions.len()
        invariant
            t <= raw_transactions.len() <= u32::MAX,
            raw == raw_views(raw_transactions@),
            is_reverse_lookup(lookup@, label_views(labels@)),
            label_views(labels@) == inventory_of(raw.take(t as int)),
            counts.len() == labels.len(),
            forall|id: int|
                0 <= id < counts.len() ==> (#[trigger] counts@[id]) == support_count(
                    views(transactions@),
                    seq![id as usize],
                ),
            transactions.len() == t,
            forall|u: int|
                0 <= u < t ==> is_normalized(
                    #[trigger] transactions@[u]@,
                    raw[u],
                    label_views(labels@),
                ),
        decreases raw_transactions.len() - t,
    {
        let ghost done = views(transactions@);
        let ghost inv = label_views(labels@);
        let ghost labels_before = labels@;
        let ghost counts_before = counts@;
        proof {
            assert forall|id: int| 0 <= id < counts.len() implies counts@[id] < u32::MAX by {
                lemma_support_count_bounded(done, seq![id as usize]);
            }
        }
        let items = normalize_transaction(
            &raw_transactions[t],
            &mut lookup,
            &mut labels,
            &mut counts,
        );
        let ghost items_view = items@;
        transactions.push(items);
        proof {
            let inv2 = label_views(labels@);
            let done2 = views(transactions@);
            assert(done2 =~= done.push(items_view));
            assert(raw[t as int] == label_views(raw_transactions@[t as int]@));
            assert(raw.take(t + 1).drop_last() =~= raw.take(t as int));
            assert(raw.take(t + 1).last() == raw[t as int]);
            assert forall|i: int| 0 <= i < inv.len() implies inv2[i] == inv[i] by {
                assert(labels@.take(labels_before.len() as int)[i] == labels@[i]);
            }
            assert forall|u: int| 0 <= u < t + 1 implies is_normalized(
                #[trigger] transactions@[u]@,
                raw[u],
                inv2,
            ) by {
                if u < t {
                    assert(is_normalized(done[u], raw[u], inv));
                    lemma_normalized_extends(done[u], raw[u], inv, inv2);
                }
            }
            assert forall|id: int| 0 <= id < counts.len() implies (#[trigger] counts@[id])
                == support_count(done2, seq![id as usize]) by {
                let one = seq![id as usize];
                lemma_support_push(done, items_view, one);
                assert(one[0] == id as usize);
                assert(contains_all(items_view, one) <==> items_view.contains(id as usize));
                if id >= counts_before.len() {
                    assert forall|u: int| 0 <= u < done.len() implies !(#[trigger] done[u]).contains(
                        id as usize,
                    ) by {
                        assert(is_normalized(done[u], raw[u], inv));
                        if done[u].contains(id as usize) {
                            let k = choose|k: int| 0 <= k < done[u].len() && done[u][k] == id as usize;
                            assert(done[u][k] < inv.len());
                        }
                    }
                    lemma_support_of_absent(done, id as usize);
                }
            }
        }
        t += 1;
    }
    proof {
        assert(raw.take(t as int) =~= raw);
    }
    (labels, counts, transactions)
}

/// Extending an inventory without repetitions gives one without repetitions.
pub proof fn lemma_extend_inventory_distinct(seen: Seq<Label>, labels: Seq<Label>)
    requires
        seen.no_duplicates(),
    ensures
        extend_inventory(seen, labels).no_duplicates(),
    decreases labels.len(),
{
    if labels.len() > 0 {
        lemma_extend_inventory_distinct(seen, labels.drop_last());
    }
}

/// No label stands twice in the inventory: distinct identifiers have
/// distinct labels.
pub proof fn lemma_inventory_distinct(raw: Seq<Seq<Label>>)
    ensures
        inventory_of(raw).no_duplicates(),
    decreases raw.len(),
{
    if raw.len() > 0 {
        lemma_inventory_distinct(raw.drop_last());
        lemma_extend_inventory_distinct(inventory_of(raw.drop_last()), raw.last());
    }
}

/// A normalized transaction contains an itemset exactly if the raw
/// transaction holds the labels of its items.
pub proof fn lemma_normalized_holds(
    transaction: Seq<usize>,
    raw_transaction: Seq<Label>,
    inventory: Seq<Label>,
    itemset: Seq<usize>,
)
    requires
        inventory.no_duplicates(),
        is_normalized(transaction, raw_transaction, inventory),
        forall|i: int| 0 <= i < itemset.len() ==> itemset[i] < inventory.len(),
    ensures
        contains_all(transaction, itemset) <==> holds_items(raw_transaction, inventory, itemset),
{
    if contains_all(transaction, itemset) {
        assert forall|i: int| 0 <= i < itemset.len() implies (#[trigger] itemset[i])
            < inventory.len() && raw_transaction.contains(inventory[itemset[i] as int]) by {
            assert(transaction.contains(itemset[i]));
            let k = choose|k: int| 0 <= k < transaction.len() && transaction[k] == itemset[i];
            assert(raw_transaction.contains(inventory[transaction[k] as int]));
        }
    }
    if holds_items(raw_transaction, inventory, itemset) {
        assert forall|i: int| 0 <= i < itemset.len() implies transaction.contains(
            #[trigger] itemset[i],
        ) by {
            let label = inventory[itemset[i] as int];
            assert(raw_transaction.contains(label));
            let j = choose|j: int| 0 <= j < raw_transaction.len() && raw_transaction[j] == label;
            assert(names_label(transaction, inventory, raw_transaction[j]));
            let k = choose|k: int|
                0 <= k < transaction.len() && (#[trigger] transaction[k]) < inventory.len()
                    && inventory[transaction[k] as int] == label;
            assert(transaction[k] == itemset[i]);
        }
    }
}

/// Counting over the normalized transactions is counting over the raw ones.
pub proof fn lemma_normalized_support(
    raw: Seq<Seq<Label>>,
    inventory: Seq<Label>,
    transactions: Seq<Seq<usize>>,
    itemset: Seq<usize>,
)
    requires
        inventory.no_duplicates(),
        transactions.len() == raw.len(),
        forall|t: int|
            0 <= t < raw.len() ==> is_normalized(#[trigger] transactions[t], raw[t], inventory),
        forall|i: int| 0 <= i < itemset.len() ==> itemset[i] < inventory.len(),
    ensures
        support_count(transactions, itemset) == raw_support_count(raw, inventory, itemset),
    decreases raw.len(),
{
    if raw.len() > 0 {
        let rest = transactions.drop_last();
        assert forall|t: int| 0 <= t < raw.drop_last().len() implies is_normalized(
            #[trigger] rest[t],
            raw.drop_last()[t],
            inventory,
        ) by {
            assert(rest[t] == transactions[t]);
        }
        lemma_normalized_support(raw.drop_last(), inventory, rest, itemset);
        assert(is_normalized(transactions[raw.len() - 1], raw[raw.len() - 1], inventory));
        lemma_normalized_holds(transactions.last(), raw.last(), inventory, itemset);
    }
}

} // verus!
