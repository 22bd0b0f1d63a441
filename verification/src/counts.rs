//! The result of one level: a finite map from itemsets to support counts.

use crate::order::{find_itemset, lemma_ascending_distinct, lemma_insert_ascending, lex_ascending};
use crate::types::{views, Itemset};
use vstd::prelude::*;

verus! {

/// A map from itemsets to support counts, kept in ascending lexicographic
/// order of its itemsets, so that no itemset occurs twice.
#[derive(Debug, PartialEq, Eq)]
pub struct ItemsetCounts {
    keys: Vec<Itemset>,
    counts: Vec<u32>,
}

impl View for ItemsetCounts {
    type V = Map<Seq<usize>, u32>;

    closed spec fn view(&self) -> Map<Seq<usize>, u32> {
        Map::new(
            |k: Seq<usize>| views(self.keys@).contains(k),
            |k: Seq<usize>| self.counts@[views(self.keys@).index_of(k)],
        )
    }
}

impl ItemsetCounts {
    /// The itemsets stand in strictly ascending order, each beside its count.
    pub closed spec fn wf(&self) -> bool {
        &&& self.keys.len() == self.counts.len()
        &&& lex_ascending(views(self.keys@))
    }

    /// The itemsets of the map, in ascending order.
    pub closed spec fn itemsets_view(&self) -> Seq<Seq<usize>> {
        views(self.keys@)
    }

    proof fn lemma_entry(&self, i: int)
        requires
            self.wf(),
            0 <= i < self.keys.len(),
        ensures
            self@.contains_key(self.keys@[i]@),
            self@[self.keys@[i]@] == self.counts@[i],
    {
        let ks = views(self.keys@);
        lemma_ascending_distinct(ks);
        assert(ks[i] == self.keys@[i]@);
        assert(ks.contains(ks[i]));
        let j = ks.index_of(ks[i]);
        assert(ks[j] == ks[i]);
    }

    /// The view is a finite map whose keys are `itemsets_view()`.
    pub proof fn lemma_view(&self)
        requires
            self.wf(),
        ensures
            self@.dom() == self.itemsets_view().to_set(),
            self@.dom().finite(),
            self@.dom().len() == self.itemsets_view().len(),
            self.itemsets_view().no_duplicates(),
            lex_ascending(self.itemsets_view()),
    {
        let ks = views(self.keys@);
        lemma_ascending_distinct(ks);
        assert(self@.dom() =~= ks.to_set());
        ks.unique_seq_to_set();
        vstd::seq_lib::seq_to_set_is_finite(ks);
    }

    /// The empty map.
    pub fn new() -> (empty: Self)
        ensures
            empty.wf(),
            empty@ == Map::<Seq<usize>, u32>::empty(),
    {
        let empty = ItemsetCounts { keys: Vec::new(), counts: Vec::new() };
        assert(empty@ =~= Map::<Seq<usize>, u32>::empty());
        empty
    }

    /// The number of itemsets in the map.
    pub fn len(&self) -> (n: usize)
        requires
            self.wf(),
        ensures
            n == self@.dom().len(),
    {
        proof {
            self.lemma_view();
        }
        self.keys.len()
    }

    /// The itemsets of the map, in ascending lexicographic order.
    pub fn itemsets(&self) -> (keys: &Vec<Itemset>)
        requires
            self.wf(),
        ensures
            views(keys@) == self.itemsets_view(),
            views(keys@).to_set() == self@.dom(),
            lex_ascending(views(keys@)),
    {
        proof {
            self.lemma_view();
        }
        &self.keys
    }

    /// The count recorded for `itemset`, if it is in the map.
    pub fn get(&self, itemset: &Itemset) -> (count: Option<u32>)
        requires
            self.wf(),
        ensures
            count == if self@.contains_key(itemset@) {
                Some(self@[itemset@])
            } else {
                None
            },
    {
        let (pos, found) = find_itemset(&self.keys, itemset);
        if found {
            proof {
                self.lemma_entry(pos as int);
            }
            Some(self.counts[pos])
        } else {
            None
        }
    }

    /// Records `count` for `itemset`, in place of any count it had.
    pub fn insert(&mut self, itemset: Itemset, count: u32)
        requires
            old(self).wf(),
        ensures
            final(self).wf(),
            final(self)@ == old(self)@.insert(itemset@, count),
    {
        let (pos, found) = find_itemset(&self.keys, &itemset);
        let ghost before = *self;
        let ghost old_keys = views(self.keys@);
        if found {
            self.counts.set(pos, count);
            proof {
                let after = *self;
                assert forall|k: Seq<usize>| after@.contains_key(k) implies #[trigger] after@[k]
                    == before@.insert(itemset@, count)[k] by {
                    assert(views(after.keys@) == old_keys);
                    assert(old_keys.contains(k));
                    let j = old_keys.index_of(k);
                    assert(old_keys[j] == k && before.keys@[j]@ == k);
                    before.lemma_entry(j);
                    after.lemma_entry(j);
                    lemma_ascending_distinct(old_keys);
                    assert(old_keys[pos as int] == itemset@);
                    assert(k == itemset@ <==> j == pos);
                }
                assert(after@ =~= before@.insert(itemset@, count));
            }
        } else {
            self.keys.insert(pos, itemset);
            self.counts.insert(pos, count);
            proof {
                let after = *self;
                let new_keys = views(after.keys@);
                assert(new_keys =~= old_keys.insert(pos as int, itemset@));
                lemma_insert_ascending(old_keys, pos as int, itemset@);
                assert forall|k: Seq<usize>| after@.contains_key(k) implies #[trigger] after@[k]
                    == before@.insert(itemset@, count)[k] by {
                    let i = new_keys.index_of(k);
                    after.lemma_entry(i);
                    if i < pos {
                        before.lemma_entry(i);
                    } else if i > pos {
                        before.lemma_entry(i - 1);
                    }
                }
                assert(after@ =~= before@.insert(itemset@, count));
            }
        }
    }
}

} // verus!
