//! Frequent-itemset mining with the level-wise Apriori algorithm.
//!
//! Given transactions of item labels and a minimum support count, the
//! library finds, for each size from 1 up to a bound, every set of items that
//! at least that many transactions hold, together with the exact number of
//! transactions that hold it.
//!
//! Every executable function carries a contract over mathematical models
//! (`Seq`, `Map`, `nat`) that Verus proves against its body.
//!
//! - [`itemset`]: the engine and its two entry points,
//!   `generate_frequent_item_counts` and `generate_frequent_itemsets`;
//! - [`indexing`]: identifiers for labels and the normal form of a
//!   transaction;
//! - [`combi`]: candidate generation;
//! - [`support`]: support counting;
//! - [`counts`] and [`order`]: the per-level result and the order it is kept
//!   in;
//! - [`levels`]: what the frequent itemsets of a size are, and why the search
//!   finds them;
//! - [`laws`]: what holds of every result;
//! - [`types`]: the plain data types.

pub mod combi;
pub mod counts;
pub mod indexing;
pub mod itemset;
pub mod laws;
pub mod levels;
pub mod order;
pub mod support;
pub mod types;
