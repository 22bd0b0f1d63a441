use apriori::counts::ItemsetCounts;
use apriori::itemset::{
    convert_to_itemset_counts, generate_candidates_from_prev, generate_frequent_item_counts,
    generate_frequent_itemset_counts_from_candidates, generate_frequent_itemsets,
};
use std::collections::HashMap;

const A: &str = "Item A";
const B: &str = "Item B";
const C: &str = "Item C";
const D: &str = "Item D";

fn min_count(min_support: f32, transactions: usize) -> usize {
    (min_support * transactions as f32).ceil() as usize
}

fn sorted(mut items: Vec<usize>) -> Vec<usize> {
    items.sort_unstable();
    items
}

fn as_map(counts: &ItemsetCounts) -> HashMap<Vec<usize>, u32> {
    let mut map: HashMap<Vec<usize>, u32> = HashMap::new();
    for itemset in counts.itemsets() {
        map.insert(itemset.clone(), counts.get(itemset).unwrap());
    }
    map
}

fn levels_as_maps(levels: &HashMap<usize, ItemsetCounts>) -> HashMap<usize, HashMap<Vec<usize>, u32>> {
    levels.iter().map(|(size, counts)| (*size, as_map(counts))).collect()
}

fn map_of(entries: Vec<(Vec<usize>, u32)>) -> HashMap<Vec<usize>, u32> {
    entries.into_iter().collect()
}

fn counts_of(entries: Vec<(Vec<usize>, u32)>) -> ItemsetCounts {
    let mut counts = ItemsetCounts::new();
    for (itemset, count) in entries {
        counts.insert(itemset, count);
    }
    counts
}

fn keys_of(candidate_counts: &HashMap<Vec<usize>, u32>) -> Vec<Vec<usize>> {
    candidate_counts.keys().cloned().collect()
}

fn get_reverse_lookup(inventory: HashMap<usize, &str>) -> HashMap<&str, usize> {
    inventory.into_iter().map(|(k, v)| (v, k)).collect()
}

#[test]
fn update_counts() {
    let transactions = vec![vec![0, 1]];
    let candidate_counts = map_of(vec![(vec![0], 0), (vec![1], 0)]);

    let candidate_counts = as_map(&generate_frequent_itemset_counts_from_candidates(
        keys_of(&candidate_counts),
        &transactions,
        0,
    ));

    assert_eq!(candidate_counts, map_of(vec![(vec![0], 1), (vec![1], 1)]));
}

#[test]
fn update_counts_with_min_support_1() {
    let transactions = vec![vec![10, 11], vec![10, 12]];
    let candidate_counts = map_of(vec![(vec![10], 0), (vec![11], 0)]);

    let candidate_counts = as_map(&generate_frequent_itemset_counts_from_candidates(
        keys_of(&candidate_counts),
        &transactions,
        2,
    ));

    assert_eq!(candidate_counts, map_of(vec![(vec![10], 2)]))
}

#[test]
fn update_counts_with_min_support_0_5_1_itemset() {
    let transactions = vec![
        vec![10, 11],
        vec![10, 15],
        vec![10, 12],
        vec![10, 12],
        vec![10, 12],
        vec![11, 12],
    ];
    let candidate_counts = map_of(vec![
        (vec![10], 0),
        (vec![11], 0),
        (vec![12], 0),
        (vec![15], 0),
    ]);

    let candidate_counts = as_map(&generate_frequent_itemset_counts_from_candidates(
        keys_of(&candidate_counts),
        &transactions,
        3,
    ));

    assert_eq!(
        candidate_counts,
        map_of(vec![(vec![10], 5), (vec![12], 4)])
    );
}

#[test]
fn update_counts_with_min_support_0_5_2_itemset() {
    let transactions = vec![
        vec![10, 11],
        vec![10, 15],
        vec![10, 13],
        vec![10, 13],
        vec![10, 13],
        vec![11, 13],
    ];
    let candidate_counts = map_of(vec![
        (vec![10, 11], 0),
        (vec![10, 13], 0),
        (vec![10, 15], 0),
        (vec![11, 13], 0),
        (vec![11, 15], 0),
    ]);

    let candidate_counts = as_map(&generate_frequent_itemset_counts_from_candidates(
        keys_of(&candidate_counts),
        &transactions,
        3,
    ));

    assert_eq!(candidate_counts, map_of(vec![(vec![10, 13], 3)]));
}

#[test]
fn update_counts_with_min_support() {
    let transactions = vec![vec![10, 11], vec![10, 13]];
    let candidate_counts = map_of(vec![(vec![10], 0), (vec![11], 0)]);

    let candidate_counts = as_map(&generate_frequent_itemset_counts_from_candidates(
        keys_of(&candidate_counts),
        &transactions,
        2,
    ));

    assert_eq!(candidate_counts, map_of(vec![(vec![10], 2)]));
}

#[test]
fn update_counts_2() {
    let transactions = vec![vec![10, 11, 13]];
    let candidate_counts = map_of(vec![(vec![10], 0), (vec![11], 0)]);

    let candidate_counts = as_map(&generate_frequent_itemset_counts_from_candidates(
        keys_of(&candidate_counts),
        &transactions,
        0,
    ));
    assert_eq!(
        candidate_counts,
        map_of(vec![(vec![10], 1), (vec![11], 1)])
    );
}

#[test]
fn update_counts_3() {
    let transactions = vec![vec![10, 11, 13], vec![10]];
    let candidate_counts = map_of(vec![(vec![10], 0), (vec![11], 0)]);

    let candidate_counts = as_map(&generate_frequent_itemset_counts_from_candidates(
        keys_of(&candidate_counts),
        &transactions,
        0,
    ));
    assert_eq!(
        candidate_counts,
        map_of(vec![(vec![10], 2), (vec![11], 1)])
    );
}

#[test]
fn create_counts_one_itemset_with_sorted_transaction_ids() {
    let raw_transactions = vec![vec![A, B, D], vec![A]];
    let (itemset_counts, inventory, transaction_ids) =
        generate_frequent_item_counts(raw_transactions, min_count(0.0, 2));
    let lookup = get_reverse_lookup(inventory);

    assert_eq!(itemset_counts.len(), 3);
    assert_eq!(itemset_counts[&lookup[A]], 2);
    assert_eq!(itemset_counts[&lookup[B]], 1);
    assert_eq!(itemset_counts[&lookup[D]], 1);

    assert_eq!(
        transaction_ids,
        vec![
            sorted(vec![lookup[A], lookup[B], lookup[D]]),
            vec![lookup[A]]
        ]
    );
}

#[test]
fn create_counts_one_itemset_with_min_support_1() {
    let raw_transactions = vec![vec![A, B, D], vec![A]];
    let (itemset_counts, inventory, _) =
        generate_frequent_item_counts(raw_transactions, min_count(1.0, 2));
    let lookup = get_reverse_lookup(inventory);

    assert_eq!(itemset_counts.len(), 1);
    assert_eq!(itemset_counts[&lookup[A]], 2);
}

#[test]
fn create_counts_one_itemset_with_min_support_05() {
    let raw_transactions = vec![vec![A, B, C], vec![A], vec![B], vec![A, C]];
    let (itemset_counts, inventory, _) =
        generate_frequent_item_counts(raw_transactions, min_count(0.5, 4));
    let lookup = get_reverse_lookup(inventory);

    assert_eq!(itemset_counts.len(), 3);
    assert_eq!(itemset_counts[&lookup[A]], 3);
    assert_eq!(itemset_counts[&lookup[B]], 2);
    assert_eq!(itemset_counts[&lookup[C]], 2);
}

#[test]
fn test_convert_to_itemset_counts() {
    let mut item_counts: HashMap<usize, u32> = HashMap::new();
    item_counts.insert(13, 3);
    item_counts.insert(10, 0);
    item_counts.insert(11, 5);
    let itemset_counts = as_map(&convert_to_itemset_counts(item_counts));

    let expected = map_of(vec![(vec![10], 0), (vec![11], 5), (vec![13], 3)]);

    assert_eq!(itemset_counts, expected);
}

#[test]
fn create_counts_from_prev_1_itemset() {
    let itemset_counts = counts_of(vec![(vec![10], 0), (vec![13], 0), (vec![14], 0)]);
    let candidate_counts: HashMap<Vec<usize>, u32> = generate_candidates_from_prev(&itemset_counts)
        .into_iter()
        .map(|candidate| (candidate, 0))
        .collect();

    let expected = map_of(vec![
        (vec![10, 13], 0),
        (vec![10, 14], 0),
        (vec![13, 14], 0),
    ]);

    assert_eq!(candidate_counts, expected);
}

#[test]
fn test_generate_frequent_itemsets_001_minsupport() {
    let transactions = vec![vec![A, B], vec![A, C], vec![A, B, C], vec![B, D]];
    let (frequent_itemsets, inventory) =
        generate_frequent_itemsets(transactions, min_count(0.01, 4), 3);
    let lookup = get_reverse_lookup(inventory);

    let mut expected: HashMap<usize, HashMap<Vec<usize>, u32>> = HashMap::new();
    expected.insert(
        1,
        map_of(vec![
            (vec![lookup[A]], 3),
            (vec![lookup[B]], 3),
            (vec![lookup[C]], 2),
            (vec![lookup[D]], 1),
        ]),
    );
    expected.insert(
        2,
        map_of(vec![
            (sorted(vec![lookup[A], lookup[B]]), 2),
            (sorted(vec![lookup[A], lookup[C]]), 2),
            (sorted(vec![lookup[B], lookup[C]]), 1),
            (sorted(vec![lookup[B], lookup[D]]), 1),
        ]),
    );
    expected.insert(3, map_of(vec![(sorted(vec![0, 1, 2]), 1)]));

    assert_eq!(levels_as_maps(&frequent_itemsets), expected);
}

#[test]
fn test_generate_frequent_itemsets_05_minsupport() {
    let transactions = vec![vec![A, B], vec![A, C], vec![A, B, C], vec![B, D]];
    let (frequent_itemsets, inventory) =
        generate_frequent_itemsets(transactions, min_count(0.5, 4), 3);
    let lookup = get_reverse_lookup(inventory);

    let mut expected: HashMap<usize, HashMap<Vec<usize>, u32>> = HashMap::new();
    expected.insert(
        1,
        map_of(vec![
            (vec![lookup[A]], 3),
            (vec![lookup[B]], 3),
            (vec![lookup[C]], 2),
        ]),
    );
    expected.insert(
        2,
        map_of(vec![
            (sorted(vec![lookup[A], lookup[B]]), 2),
            (sorted(vec![lookup[A], lookup[C]]), 2),
        ]),
    );
    expected.insert(3, map_of(vec![]));

    assert_eq!(levels_as_maps(&frequent_itemsets), expected);
}

#[test]
fn test_generate_frequent_itemsets_05_minsupport_large_k() {
    let transactions: Vec<Vec<&str>> = vec![vec![A, B], vec![A, C], vec![A, B, C], vec![B, C]];
    let (frequent_itemsets, inventory) =
        generate_frequent_itemsets(transactions, min_count(0.5, 4), 5);
    let lookup = get_reverse_lookup(inventory);

    let mut expected: HashMap<usize, HashMap<Vec<usize>, u32>> = HashMap::new();
    expected.insert(
        1,
        map_of(vec![
            (vec![lookup[A]], 3),
            (vec![lookup[B]], 3),
            (vec![lookup[C]], 3),
        ]),
    );
    expected.insert(
        2,
        map_of(vec![
            (sorted(vec![lookup[A], lookup[B]]), 2),
            (sorted(vec![lookup[A], lookup[C]]), 2),
            (sorted(vec![lookup[B], lookup[C]]), 2),
        ]),
    );
    expected.insert(3, map_of(vec![]));
    expected.insert(4, map_of(vec![]));
    expected.insert(5, map_of(vec![]));

    assert_eq!(levels_as_maps(&frequent_itemsets), expected);
}
