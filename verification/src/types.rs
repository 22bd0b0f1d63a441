//! The data model: item identifiers, transactions and itemsets.

use crate::counts::ItemsetCounts;
use std::collections::HashMap;
use vstd::prelude::*;

verus! {

/// A sequence of item identifiers naming a set of items.
pub type Itemset = Vec<usize>;

/// The item identifiers of one transaction.
pub type Transaction = Vec<usize>;

/// The raw labels of one transaction, in the order in which they are read.
pub type RawTransaction<'a> = Vec<&'a str>;

/// The support count of each frequent item, by its identifier.
pub type ItemCounts = HashMap<usize, u32>;

/// The raw label of each item, by its identifier.
pub type Inventory<'a> = HashMap<usize, &'a str>;

/// The frequent itemsets of each size, by that size.
pub type FrequentItemsets = HashMap<usize, ItemsetCounts>;

/// The mathematical view of a list of itemsets or transactions.
pub open spec fn views(items: Seq<Vec<usize>>) -> Seq<Seq<usize>> {
    items.map_values(|t: Vec<usize>| t@)
}

/// `s` is strictly increasing, so it names each of its items once.
pub open spec fn strictly_increasing(s: Seq<usize>) -> bool {
    forall|i: int, j: int| 0 <= i < j < s.len() ==> s[i] < s[j]
}

} // verus!
