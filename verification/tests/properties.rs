use apriori::combi::join_step;
use apriori::counts::ItemsetCounts;
use apriori::indexing::insert_sorted;
use apriori::itemset::{
    frequent_entry, frequent_item_ids, generate_frequent_item_counts,
    generate_frequent_itemset_counts_from_candidates, generate_frequent_itemsets, retain_long, yo,
};
use apriori::order::{find_itemset, has_prefix, insert_unique, lex_less};
use apriori::support::{count_support, transaction_contains, transaction_contains_all};
use std::collections::{HashMap, HashSet};

fn market() -> Vec<Vec<&'static str>> {
    vec![
        vec!["bread", "milk"],
        vec!["bread", "diapers", "beer", "eggs"],
        vec!["milk", "diapers", "beer", "cola"],
        vec!["bread", "milk", "diapers", "beer"],
        vec!["bread", "milk", "diapers", "cola"],
        vec![],
        vec!["milk", "milk", "bread"],
    ]
}

fn as_map(counts: &ItemsetCounts) -> HashMap<Vec<usize>, u32> {
    let mut map: HashMap<Vec<usize>, u32> = HashMap::new();
    for itemset in counts.itemsets() {
        map.insert(itemset.clone(), counts.get(itemset).unwrap());
    }
    map
}

fn counts_of(entries: Vec<(Vec<usize>, u32)>) -> ItemsetCounts {
    let mut counts = ItemsetCounts::new();
    for (itemset, count) in entries {
        counts.insert(itemset, count);
    }
    counts
}

/// The number of raw transactions that hold the label of every item.
fn true_support(raw: &[Vec<&str>], inventory: &HashMap<usize, &str>, itemset: &[usize]) -> u32 {
    raw.iter()
        .filter(|labels| itemset.iter().all(|id| labels.contains(&inventory[id])))
        .count() as u32
}

/// All ascending sequences of `size` identifiers below `num_items`.
fn all_itemsets(num_items: usize, size: usize) -> Vec<Vec<usize>> {
    let mut found: Vec<Vec<usize>> = vec![vec![]];
    for _ in 0..size {
        let mut longer: Vec<Vec<usize>> = Vec::new();
        for prefix in &found {
            let start: usize = prefix.last().map_or(0, |last| last + 1);
            for id in start..num_items {
                let mut itemset = prefix.clone();
                itemset.push(id);
                longer.push(itemset);
            }
        }
        found = longer;
    }
    found
}

#[test]
fn frequent_itemsets_have_frequent_parts() {
    let (levels, _) = generate_frequent_itemsets(market(), 2, 4);
    for size in 2..=4usize {
        let below = &levels[&(size - 1)];
        for itemset in levels[&size].itemsets() {
            let count: u32 = levels[&size].get(itemset).unwrap();
            for left_out in 0..itemset.len() {
                let mut part = itemset.clone();
                part.remove(left_out);
                let part_count = below.get(&part);
                assert!(part_count.is_some());
                assert!(part_count.unwrap() >= count);
                assert!(part_count.unwrap() >= 2);
            }
        }
    }
    assert!(levels[&3].len() > 0);
}

#[test]
fn recorded_counts_are_true_supports() {
    let raw = market();
    let (levels, inventory) = generate_frequent_itemsets(raw.clone(), 1, 5);
    for size in 1..=5usize {
        for itemset in levels[&size].itemsets() {
            assert_eq!(itemset.len(), size);
            assert_eq!(
                levels[&size].get(itemset).unwrap(),
                true_support(&raw, &inventory, itemset)
            );
        }
    }
}

#[test]
fn levels_hold_exactly_the_itemsets_that_reach_the_threshold() {
    let raw = market();
    for threshold in 0..=4usize {
        let (levels, inventory) = generate_frequent_itemsets(raw.clone(), threshold, 4);
        assert_eq!(inventory.len(), 6);
        for size in 1..=4usize {
            let mut expected: HashMap<Vec<usize>, u32> = HashMap::new();
            for itemset in all_itemsets(inventory.len(), size) {
                let support: u32 = true_support(&raw, &inventory, &itemset);
                if support as usize >= threshold {
                    expected.insert(itemset, support);
                }
            }
            assert_eq!(as_map(&levels[&size]), expected);
        }
    }
}

#[test]
fn identifiers_and_labels_map_back_and_forth() {
    let raw = market();
    let (_, inventory, transactions) = generate_frequent_item_counts(raw.clone(), 0);
    let lookup: HashMap<&str, usize> = inventory.iter().map(|(id, label)| (*label, *id)).collect();
    assert_eq!(lookup.len(), inventory.len());
    for id in 0..inventory.len() {
        assert_eq!(lookup[inventory[&id]], id);
    }
    assert_eq!(transactions.len(), raw.len());
    for (labels, transaction) in raw.iter().zip(transactions.iter()) {
        let recovered: HashSet<&str> = transaction.iter().map(|id| inventory[id]).collect();
        let given: HashSet<&str> = labels.iter().copied().collect();
        assert_eq!(recovered, given);
        for label in labels {
            assert_eq!(inventory[&lookup[label]], *label);
        }
    }
}

#[test]
fn identifiers_follow_first_appearance() {
    let (_, inventory, transactions) = generate_frequent_item_counts(market(), 0);
    let labels: Vec<&str> = (0..inventory.len()).map(|id| inventory[&id]).collect();
    assert_eq!(labels, vec!["bread", "milk", "diapers", "beer", "eggs", "cola"]);
    assert_eq!(
        transactions,
        vec![
            vec![0, 1],
            vec![0, 2, 3, 4],
            vec![1, 2, 3, 5],
            vec![0, 1, 2, 3],
            vec![0, 1, 2, 5],
            vec![],
            vec![0, 1],
        ]
    );
}

#[test]
fn indexing_twice_gives_the_same_tables() {
    let first = generate_frequent_item_counts(market(), 3);
    let second = generate_frequent_item_counts(market(), 3);
    assert_eq!(first.0, second.0);
    assert_eq!(first.1, second.1);
    assert_eq!(first.2, second.2);
}

#[test]
fn a_repeated_label_counts_once() {
    let raw = vec![vec!["x", "x", "y", "x"], vec!["y", "y"]];
    let (item_counts, inventory, transactions) = generate_frequent_item_counts(raw, 0);
    assert_eq!(inventory.len(), 2);
    assert_eq!(inventory[&0], "x");
    assert_eq!(inventory[&1], "y");
    assert_eq!(item_counts[&0], 1);
    assert_eq!(item_counts[&1], 2);
    assert_eq!(transactions, vec![vec![0, 1], vec![1]]);
}

#[test]
fn infrequent_items_stay_in_inventory_and_transactions() {
    let raw = vec![vec!["a", "b"], vec!["a"], vec!["a", "c"]];
    let (item_counts, inventory, transactions) = generate_frequent_item_counts(raw, 2);
    assert_eq!(item_counts.len(), 1);
    assert_eq!(item_counts[&0], 3);
    assert_eq!(inventory.len(), 3);
    assert_eq!(transactions, vec![vec![0, 1], vec![0], vec![0, 2]]);
}

#[test]
fn empty_collection_gives_empty_levels() {
    let raw: Vec<Vec<&str>> = Vec::new();
    let (levels, inventory) = generate_frequent_itemsets(raw, 0, 2);
    assert_eq!(levels.len(), 2);
    assert_eq!(levels[&1].len(), 0);
    assert_eq!(levels[&2].len(), 0);
    assert!(inventory.is_empty());
}

#[test]
fn single_transaction_with_one_level() {
    let (levels, inventory) = generate_frequent_itemsets(vec![vec!["A"]], 1, 1);
    assert_eq!(levels.len(), 1);
    assert!(!levels.contains_key(&2));
    let mut expected: HashMap<Vec<usize>, u32> = HashMap::new();
    expected.insert(vec![0], 1);
    assert_eq!(as_map(&levels[&1]), expected);
    assert_eq!(inventory[&0], "A");
}

#[test]
fn no_level_gives_nothing() {
    let (levels, inventory) = generate_frequent_itemsets(market(), 1, 0);
    assert!(levels.is_empty());
    assert!(inventory.is_empty());
}

#[test]
fn levels_beyond_the_longest_transaction_are_empty() {
    let (levels, _) = generate_frequent_itemsets(market(), 1, 6);
    assert_eq!(levels.len(), 6);
    assert_eq!(levels[&4].len(), 4);
    assert_eq!(levels[&5].len(), 0);
    assert_eq!(levels[&6].len(), 0);
}

#[test]
fn threshold_zero_keeps_every_itemset() {
    let (levels, _) = generate_frequent_itemsets(market(), 0, 6);
    assert_eq!(levels[&1].len(), 6);
    assert_eq!(levels[&2].len(), 15);
    assert_eq!(levels[&3].len(), 20);
    assert_eq!(levels[&4].len(), 15);
    assert_eq!(levels[&5].len(), 6);
    assert_eq!(levels[&6].len(), 1);
    assert_eq!(levels[&6].get(&vec![0, 1, 2, 3, 4, 5]), Some(0));
}

#[test]
fn threshold_zero_keeps_pairs_without_support() {
    let raw = vec![vec!["a"], vec!["b"]];
    let (levels, _) = generate_frequent_itemsets(raw, 0, 2);
    let mut expected: HashMap<Vec<usize>, u32> = HashMap::new();
    expected.insert(vec![0, 1], 0);
    assert_eq!(as_map(&levels[&2]), expected);
}

#[test]
fn support_counts_are_exact() {
    let transactions = vec![vec![1, 2, 3], vec![2, 3], vec![3], vec![], vec![3, 2, 1]];
    assert_eq!(count_support(&transactions, &vec![3]), 4);
    assert_eq!(count_support(&transactions, &vec![2, 3]), 3);
    assert_eq!(count_support(&transactions, &vec![3, 2]), 3);
    assert_eq!(count_support(&transactions, &vec![1, 2, 3]), 2);
    assert_eq!(count_support(&transactions, &vec![4]), 0);
    assert_eq!(count_support(&transactions, &vec![]), 5);
    assert_eq!(count_support(&[], &vec![1]), 0);
}

#[test]
fn containment_is_by_items() {
    assert!(transaction_contains(&vec![4, 7, 9], 7));
    assert!(!transaction_contains(&vec![4, 7, 9], 8));
    assert!(!transaction_contains(&vec![], 0));
    assert!(transaction_contains_all(&vec![4, 7, 9], &vec![9, 4]));
    assert!(transaction_contains_all(&vec![4, 7, 9], &vec![]));
    assert!(!transaction_contains_all(&vec![4, 7, 9], &vec![4, 5]));
}

#[test]
fn an_entry_is_kept_from_the_threshold_on() {
    let transactions = vec![vec![1, 2], vec![1], vec![2]];
    assert_eq!(frequent_entry(&vec![1], &transactions, 2), Some((vec![1], 2)));
    assert_eq!(frequent_entry(&vec![1], &transactions, 3), None);
    assert_eq!(frequent_entry(&vec![1, 2], &transactions, 1), Some((vec![1, 2], 1)));
    assert_eq!(frequent_entry(&vec![5], &transactions, 0), Some((vec![5], 0)));
}

#[test]
fn repeated_candidates_are_counted_once() {
    let transactions = vec![vec![1, 2], vec![1]];
    let candidates = vec![vec![2], vec![1], vec![2], vec![3], vec![1]];
    let frequent = generate_frequent_itemset_counts_from_candidates(candidates, &transactions, 1);
    assert_eq!(frequent.len(), 2);
    assert_eq!(frequent.itemsets(), &vec![vec![1], vec![2]]);
    assert_eq!(frequent.get(&vec![1]), Some(2));
    assert_eq!(frequent.get(&vec![2]), Some(1));
    assert_eq!(frequent.get(&vec![3]), None);
}

#[test]
fn pairs_come_out_sorted_whatever_the_order_of_the_items() {
    let transactions = vec![vec![1, 2, 3], vec![1, 3], vec![2, 3], vec![3]];
    let frequent = yo(&vec![3, 1, 2], &transactions, 1);
    let mut expected: HashMap<Vec<usize>, u32> = HashMap::new();
    expected.insert(vec![1, 2], 1);
    expected.insert(vec![1, 3], 2);
    expected.insert(vec![2, 3], 2);
    assert_eq!(as_map(&frequent), expected);
    assert_eq!(yo(&vec![3, 1, 2], &transactions, 2).len(), 2);
    assert_eq!(yo(&vec![3], &transactions, 0).len(), 0);
    assert_eq!(yo(&vec![], &transactions, 0).len(), 0);
}

#[test]
fn short_transactions_are_dropped_in_order() {
    let transactions = vec![vec![1], vec![1, 2], vec![], vec![3, 4, 5], vec![6, 7]];
    assert_eq!(
        retain_long(transactions.clone(), 2),
        vec![vec![1, 2], vec![3, 4, 5], vec![6, 7]]
    );
    assert_eq!(retain_long(transactions.clone(), 0), transactions);
    assert_eq!(retain_long(transactions, 4), Vec::<Vec<usize>>::new());
}

#[test]
fn the_ids_of_a_count_table_are_its_keys() {
    let mut item_counts: HashMap<usize, u32> = HashMap::new();
    item_counts.insert(7, 1);
    item_counts.insert(2, 9);
    item_counts.insert(5, 0);
    let mut ids = frequent_item_ids(&item_counts);
    ids.sort_unstable();
    assert_eq!(ids, vec![2, 5, 7]);
}

#[test]
fn the_join_keeps_candidates_with_all_parts_only() {
    let prev = counts_of(vec![
        (vec![1, 2], 0),
        (vec![1, 3], 0),
        (vec![1, 4], 0),
        (vec![2, 3], 0),
    ]);
    assert_eq!(join_step(&prev), vec![vec![1, 2, 3]]);

    let all_pairs = counts_of(vec![
        (vec![2, 3], 0),
        (vec![1, 4], 0),
        (vec![3, 4], 0),
        (vec![1, 2], 0),
        (vec![2, 4], 0),
        (vec![1, 3], 0),
    ]);
    let triples = join_step(&all_pairs);
    assert_eq!(
        triples,
        vec![vec![1, 2, 3], vec![1, 2, 4], vec![1, 3, 4], vec![2, 3, 4]]
    );
    let quadruples = join_step(&counts_of(
        triples.into_iter().map(|triple| (triple, 0)).collect(),
    ));
    assert_eq!(quadruples, vec![vec![1, 2, 3, 4]]);
}

#[test]
fn the_join_of_nothing_is_nothing() {
    assert_eq!(join_step(&ItemsetCounts::new()), Vec::<Vec<usize>>::new());
    assert_eq!(
        join_step(&counts_of(vec![(vec![5], 1)])),
        Vec::<Vec<usize>>::new()
    );
    assert_eq!(
        join_step(&counts_of(vec![(vec![], 1)])),
        Vec::<Vec<usize>>::new()
    );
}

#[test]
fn the_join_takes_itemsets_of_mixed_sizes() {
    let prev = counts_of(vec![
        (vec![1], 0),
        (vec![1, 2], 0),
        (vec![1, 3], 0),
        (vec![2], 0),
        (vec![2, 3], 0),
        (vec![1, 2, 5], 0),
    ]);
    assert_eq!(join_step(&prev), vec![vec![1, 2], vec![1, 2, 3]]);
}

#[test]
fn counts_are_kept_by_itemset() {
    let mut counts = ItemsetCounts::new();
    assert_eq!(counts.len(), 0);
    assert_eq!(counts.get(&vec![1]), None);
    counts.insert(vec![2, 5], 7);
    counts.insert(vec![1, 9], 3);
    counts.insert(vec![2], 4);
    counts.insert(vec![2, 5], 8);
    assert_eq!(counts.len(), 3);
    assert_eq!(counts.itemsets(), &vec![vec![1, 9], vec![2], vec![2, 5]]);
    assert_eq!(counts.get(&vec![2, 5]), Some(8));
    assert_eq!(counts.get(&vec![1, 9]), Some(3));
    assert_eq!(counts.get(&vec![2]), Some(4));
    assert_eq!(counts.get(&vec![5, 2]), None);
    assert_eq!(counts.get(&vec![]), None);
}

#[test]
fn the_order_is_lexicographic() {
    assert!(lex_less(&vec![1, 2], &vec![1, 3]));
    assert!(lex_less(&vec![1, 2], &vec![1, 2, 0]));
    assert!(lex_less(&vec![], &vec![0]));
    assert!(lex_less(&vec![1, 9, 9], &vec![2]));
    assert!(!lex_less(&vec![1, 2], &vec![1, 2]));
    assert!(!lex_less(&vec![1, 3], &vec![1, 2, 9]));
    assert!(!lex_less(&vec![0], &vec![]));
    assert!(!lex_less(&vec![], &vec![]));
}

#[test]
fn a_key_is_found_at_its_place() {
    let keys = vec![vec![1], vec![1, 2], vec![3], vec![3, 0], vec![7]];
    assert_eq!(find_itemset(&keys, &vec![1]), (0, true));
    assert_eq!(find_itemset(&keys, &vec![3]), (2, true));
    assert_eq!(find_itemset(&keys, &vec![7]), (4, true));
    assert_eq!(find_itemset(&keys, &vec![0]), (0, false));
    assert_eq!(find_itemset(&keys, &vec![2]), (2, false));
    assert_eq!(find_itemset(&keys, &vec![3, 0, 0]), (4, false));
    assert_eq!(find_itemset(&keys, &vec![8]), (5, false));
    assert_eq!(find_itemset(&Vec::new(), &vec![8]), (0, false));
}

#[test]
fn a_key_is_added_once() {
    let mut keys: Vec<Vec<usize>> = Vec::new();
    insert_unique(&mut keys, vec![4]);
    insert_unique(&mut keys, vec![2, 1]);
    insert_unique(&mut keys, vec![4]);
    insert_unique(&mut keys, vec![9]);
    insert_unique(&mut keys, vec![2]);
    insert_unique(&mut keys, vec![2, 1]);
    assert_eq!(keys, vec![vec![2], vec![2, 1], vec![4], vec![9]]);
}

#[test]
fn prefixes_are_compared_up_to_a_length() {
    assert!(has_prefix(&vec![1, 2, 3], &vec![1, 2, 4], 2));
    assert!(!has_prefix(&vec![1, 2, 3], &vec![1, 2, 4], 3));
    assert!(has_prefix(&vec![1, 2, 3], &vec![9], 0));
    assert!(!has_prefix(&vec![1], &vec![1, 2], 2));
    assert!(!has_prefix(&vec![1, 2], &vec![1], 2));
    assert!(has_prefix(&vec![1, 2], &vec![1, 2], 2));
}

#[test]
fn an_item_is_put_at_its_place_once() {
    let mut items: Vec<usize> = Vec::new();
    assert!(insert_sorted(&mut items, 5));
    assert!(insert_sorted(&mut items, 2));
    assert!(!insert_sorted(&mut items, 5));
    assert!(insert_sorted(&mut items, 9));
    assert!(insert_sorted(&mut items, 7));
    assert!(!insert_sorted(&mut items, 2));
    assert!(insert_sorted(&mut items, 0));
    assert_eq!(items, vec![0, 2, 5, 7, 9]);
}

#[test]
fn counts_do_not_depend_on_the_order_of_insertion() {
    let first = counts_of(vec![(vec![3], 1), (vec![1, 2], 5), (vec![1], 2)]);
    let second = counts_of(vec![(vec![1], 2), (vec![3], 1), (vec![1, 2], 5)]);
    assert_eq!(first, second);
    let third = counts_of(vec![(vec![1], 2), (vec![3], 1), (vec![1, 2], 6)]);
    assert_ne!(first, third);
}

#[test]
fn mining_twice_gives_the_same_levels() {
    let first = generate_frequent_itemsets(market(), 2, 4);
    let second = generate_frequent_itemsets(market(), 2, 4);
    assert_eq!(first.0, second.0);
    assert_eq!(first.1, second.1);
}
