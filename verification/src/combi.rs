//! Candidate generation: the pairs of frequent items and the join of the
//! frequent itemsets of one size into candidates of the next.

use crate::counts::ItemsetCounts;
use crate::order::{
    find_itemset, has_prefix, insert_unique, lemma_between_shares_prefix, lemma_lex_irreflexive,
    lemma_lex_transitive, lemma_prefix_then_less, lex_ascending, lex_lt, shares_prefix,
};
use crate::types::{views, Itemset};
use itertools::Itertools;
use vstd::prelude::*;

verus! {

/// The pair of the items at the indices `i` and `j`.
pub open spec fn pair_at(items: Seq<usize>, i: int, j: int) -> Seq<usize> {
    seq![items[i], items[j]]
}

/// All pairs of items at indices `i < j`, ordered by `i` and then by `j`.
pub open spec fn pairs_of(items: Seq<usize>) -> Seq<Seq<usize>>
    decreases items.len(),
{
    if items.len() < 2 {
        Seq::empty()
    } else {
        Seq::new((items.len() - 1) as nat, |j: int| pair_at(items, 0, j + 1)) + pairs_of(
            items.drop_first(),
        )
    }
}

/// `pair` is made of two items of `items` at distinct indices, in their order.
pub open spec fn is_index_pair(items: Seq<usize>, pair: Seq<usize>) -> bool {
    exists|i: int, j: int| 0 <= i < j < items.len() && pair == #[trigger] pair_at(items, i, j)
}

/// `pairs_of` holds the pairs at indices `i < j`, and nothing else.
pub proof fn lemma_pairs_of(items: Seq<usize>)
    ensures
        forall|k: int|
            0 <= k < pairs_of(items).len() ==> is_index_pair(items, #[trigger] pairs_of(items)[k]),
        forall|i: int, j: int|
            0 <= i < j < items.len() ==> pairs_of(items).contains(#[trigger] pair_at(items, i, j)),
    decreases items.len(),
{
    if items.len() >= 2 {
        let rest = items.drop_first();
        let head = Seq::new((items.len() - 1) as nat, |j: int| pair_at(items, 0, j + 1));
        let all = pairs_of(items);
        lemma_pairs_of(rest);
        assert(all == head + pairs_of(rest));
        assert forall|k: int| 0 <= k < all.len() implies is_index_pair(items, #[trigger] all[k]) by {
            if k < head.len() {
                assert(all[k] == pair_at(items, 0, k + 1));
            } else {
                let p = pairs_of(rest)[k - head.len()];
                assert(all[k] == p);
                assert(is_index_pair(rest, p));
                let (i, j) = choose|i: int, j: int|
                    0 <= i < j < rest.len() && p == #[trigger] pair_at(rest, i, j);
                assert(p =~= pair_at(items, i + 1, j + 1));
            }
        }
        assert forall|i: int, j: int| 0 <= i < j < items.len() implies all.contains(
            #[trigger] pair_at(items, i, j),
        ) by {
            if i == 0 {
                assert(all[j - 1] == pair_at(items, 0, j));
            } else {
                let p = pair_at(rest, i - 1, j - 1);
                assert(p =~= pair_at(items, i, j));
                assert(pairs_of(rest).contains(p));
                let k = choose|k: int| 0 <= k < pairs_of(rest).len() && pairs_of(rest)[k] == p;
                assert(all[head.len() + k] == p);
            }
        }
    }
}

/// The 2-combinations of `items`, from itertools' `combinations(2)`.
///
/// Trusted: itertools yields the combinations of two elements in
/// lexicographic order of their indices, each as a vector of the two
/// elements in the order of the input.
#[verifier::external_body]
pub(crate) fn pair_combinations(items: &Vec<usize>) -> (pairs: Vec<Itemset>)
    ensures
        views(pairs@) == pairs_of(items@),
{
    items.iter().copied().combinations(2).collect()
}

/// The two items of `pair` in ascending order.
pub open spec fn sorted_pair(pair: Seq<usize>) -> Seq<usize> {
    if pair[0] <= pair[1] {
        pair
    } else {
        seq![pair[1], pair[0]]
    }
}

/// `pair` holds two items that stand at distinct indices of `items`, the
/// smaller one first.
pub open spec fn is_pair_of(items: Seq<usize>, pair: Seq<usize>) -> bool {
    &&& pair.len() == 2
    &&& pair[0] <= pair[1]
    &&& exists|i: int, j: int|
        0 <= i < items.len() && 0 <= j < items.len() && i != j && #[trigger] items[i] == pair[0]
            && #[trigger] items[j] == pair[1]
}

/// The sorted 2-combinations of `items` are its pairs.
pub proof fn lemma_sorted_pairs(items: Seq<usize>, candidates: Seq<Seq<usize>>)
    requires
        candidates.len() == pairs_of(items).len(),
        forall|q: int|
            0 <= q < candidates.len() ==> #[trigger] candidates[q] == sorted_pair(pairs_of(items)[q]),
    ensures
        forall|s: Seq<usize>| candidates.contains(s) <==> is_pair_of(items, s),
{
    lemma_pairs_of(items);
    let pairs = pairs_of(items);
    assert forall|s: Seq<usize>| candidates.contains(s) implies is_pair_of(items, s) by {
        let q = choose|q: int| 0 <= q < candidates.len() && candidates[q] == s;
        assert(is_index_pair(items, pairs[q]));
        let (i, j) = choose|i: int, j: int|
            0 <= i < j < items.len() && pairs[q] == #[trigger] pair_at(items, i, j);
        if items[i] <= items[j] {
            assert(items[i] == s[0] && items[j] == s[1]);
        } else {
            assert(items[j] == s[0] && items[i] == s[1]);
        }
    }
    assert forall|s: Seq<usize>| is_pair_of(items, s) implies candidates.contains(s) by {
        let (i, j) = choose|i: int, j: int|
            0 <= i < items.len() && 0 <= j < items.len() && i != j && #[trigger] items[i] == s[0]
                && #[trigger] items[j] == s[1];
        let lo = if i < j { i } else { j };
        let hi = if i < j { j } else { i };
        let p = pair_at(items, lo, hi);
        assert(pairs.contains(p));
        let q = choose|q: int| 0 <= q < pairs.len() && pairs[q] == p;
        assert(sorted_pair(p) =~= s);
        assert(candidates[q] == s);
    }
}

/// `candidate` is a candidate over the itemsets `prev`: leaving out any one
/// of its items gives an itemset of `prev`, and its last two items ascend.
pub open spec fn is_join_candidate(prev: Set<Seq<usize>>, candidate: Seq<usize>) -> bool {
    &&& candidate.len() >= 2
    &&& candidate[candidate.len() - 2] < candidate[candidate.len() - 1]
    &&& forall|r: int| 0 <= r < candidate.len() ==> prev.contains(#[trigger] candidate.remove(r))
}

/// `candidate` joins the keys at `i` and `j`: it is the key at `i` followed
/// by the last item of the key at `j`, which differs from the key at `i` in
/// its last item only.
pub open spec fn joins(keys: Seq<Seq<usize>>, i: int, j: int, candidate: Seq<usize>) -> bool {
    &&& candidate.len() >= 2
    &&& keys[i] == candidate.remove(candidate.len() - 1)
    &&& keys[j] == candidate.remove(candidate.len() - 2)
}

/// Tells whether every itemset that arises from `candidate` by leaving out
/// one item, other than one of the last two, is among `keys`.
fn subsets_present(keys: &Vec<Itemset>, candidate: &Itemset) -> (all: bool)
    requires
        lex_ascending(views(keys@)),
        candidate.len() >= 2,
    ensures
        all == forall|r: int|
            0 <= r < candidate.len() - 2 ==> views(keys@).contains(#[trigger] candidate@.remove(r)),
{
    let mut r: usize = 0;
    while r + 2 < candidate.len()
        invariant
            r + 2 <= candidate.len(),
            lex_ascending(views(keys@)),
            forall|q: int| 0 <= q < r ==> views(keys@).contains(#[trigger] candidate@.remove(q)),
        decreases candidate.len() - r,
    {
        let mut subset = candidate.clone();
        assert(subset@ =~= candidate@);
        subset.remove(r);
        let (_, found) = find_itemset(keys, &subset);
        if !found {
            return false;
        }
        r += 1;
    }
    true
}

/// The join step of Apriori with subset pruning: the candidates of the next
/// size over the itemsets of `prev`, each once, in ascending order.
pub fn join_step(prev: &ItemsetCounts) -> (candidates: Vec<Itemset>)
    requires
        prev.wf(),
    ensures
        lex_ascending(views(candidates@)),
        forall|c: Seq<usize>| views(candidates@).contains(c) <==> is_join_candidate(prev@.dom(), c),
{
    let keys = prev.itemsets();
    let n = keys.len();
    let ghost ks = views(keys@);
    let ghost dom = prev@.dom();
    let mut out: Vec<Itemset> = Vec::new();
    let mut i: usize = 0;
    while i < n
        invariant
            i <= n,
            n == keys.len(),
            ks == views(keys@),
            lex_ascending(ks),
            dom == ks.to_set(),
            lex_ascending(views(out@)),
            forall|c: Seq<usize>| #[trigger] views(out@).contains(c) ==> is_join_candidate(dom, c),
            forall|c: Seq<usize>, a: int, b: int|
                0 <= a < i && 0 <= b < n && is_join_candidate(dom, c) && #[trigger] joins(ks, a, b, c)
                    ==> views(out@).contains(c),
        decreases n - i,
    {
        let m = keys[i].len();
        if m >= 1 {
            let mut j: usize = i + 1;
            while j < n && has_prefix(&keys[j], &keys[i], m - 1)
                invariant
                    i < j <= n,
                    n == keys.len(),
                    ks == views(keys@),
                    lex_ascending(ks),
                    dom == ks.to_set(),
                    m == keys@[i as int].len(),
                    m >= 1,
                    lex_ascending(views(out@)),
                    forall|c: Seq<usize>| #[trigger]
                        views(out@).contains(c) ==> is_join_candidate(dom, c),
                    forall|c: Seq<usize>, a: int, b: int|
                        0 <= a < i && 0 <= b < n && is_join_candidate(dom, c) && #[trigger] joins(
                            ks,
                            a,
                            b,
                            c,
                        ) ==> views(out@).contains(c),
                    forall|b: int| i < b < j ==> shares_prefix(#[trigger] ks[b], ks[i as int], m - 1),
                    forall|c: Seq<usize>, b: int|
                        i < b < j && is_join_candidate(dom, c) && #[trigger] joins(ks, i as int, b, c)
                            ==> views(out@).contains(c),
                decreases n - j,
            {
                let ghost first = ks[i as int];
                let ghost second = ks[j as int];
                let ghost out_before = views(out@);
                assert(first == keys@[i as int]@ && second == keys@[j as int]@);
                if keys[j].len() == m && keys[i][m - 1] < keys[j][m - 1] {
                    let mut candidate = keys[i].clone();
                    assert(candidate@ =~= first);
                    candidate.push(keys[j][m - 1]);
                    let ghost c = candidate@;
                    proof {
                        assert(c.remove(m as int) =~= first);
                        assert(c.remove(m - 1) =~= second);
                        assert(joins(ks, i as int, j as int, c));
                        lemma_joined_is_unique(ks, i as int, j as int, c);
                    }
                    if subsets_present(keys, &candidate) {
                        proof {
                            assert forall|r: int| 0 <= r < c.len() implies dom.contains(
                                #[trigger] c.remove(r),
                            ) by {
                                if r == m {
                                    assert(ks.contains(ks[i as int]));
                                } else if r == m - 1 {
                                    assert(ks.contains(ks[j as int]));
                                } else {
                                    assert(ks.contains(c.remove(r)));
                                }
                            }
                            assert(is_join_candidate(dom, c));
                        }
                        insert_unique(&mut out, candidate);
                    } else {
                        proof {
                            let r = choose|r: int|
                                0 <= r < c.len() - 2 && !ks.contains(#[trigger] c.remove(r));
                            assert(!dom.contains(c.remove(r)));
                            assert(!is_join_candidate(dom, c));
                        }
                    }
                } else {
                    proof {
                        assert forall|c: Seq<usize>|
                            is_join_candidate(dom, c) && joins(ks, i as int, j as int, c) implies false by {
                            assert(c.remove(c.len() - 1).len() == c.len() - 1);
                            assert(c.remove(c.len() - 2).len() == c.len() - 1);
                            assert(first[m - 1] == c[m - 1]);
                            assert(second[m - 1] == c[m as int]);
                        }
                    }
                }
                proof {
                    assert forall|k: Seq<usize>| out_before.contains(k) implies views(out@).contains(
                        k,
                    ) by {}
                }
                j += 1;
            }
            proof {
                assert forall|c: Seq<usize>, b: int|
                    0 <= b < n && is_join_candidate(dom, c) && #[trigger] joins(
                        ks,
                        i as int,
                        b,
                        c,
                    ) implies views(out@).contains(c) by {
                    let first = ks[i as int];
                    let second = ks[b];
                    assert(first.len() == c.len() - 1);
                    assert(second.len() == c.len() - 1);
                    assert(first[m - 1] == c[m - 1]);
                    assert(second[m - 1] == c[m as int]);
                    assert(shares_prefix(first, second, m - 1)) by {
                        assert forall|r: int| 0 <= r < m - 1 implies first[r] == second[r] by {
                            assert(first[r] == c[r]);
                            assert(second[r] == c[r]);
                        }
                    }
                    lemma_prefix_then_less(first, second, m - 1);
                    lemma_lex_irreflexive(first);
                    if b < i {
                        assert(lex_lt(ks[b], ks[i as int]));
                        lemma_lex_transitive(first, second, first);
                    }
                    assert(b > i);
                    if b >= j {
                        assert(j < n);
                        assert(!shares_prefix(ks[j as int], first, m - 1));
                        if b > j {
                            assert(lex_lt(ks[i as int], ks[j as int]));
                            assert(lex_lt(ks[j as int], ks[b]));
                            lemma_between_shares_prefix(first, ks[j as int], second, m - 1);
                        } else {
                            assert(shares_prefix(second, first, m - 1));
                        }
                    }
                }
            }
        } else {
            proof {
                assert forall|c: Seq<usize>, b: int|
                    0 <= b < n && is_join_candidate(dom, c) && #[trigger] joins(
                        ks,
                        i as int,
                        b,
                        c,
                    ) implies views(out@).contains(c) by {
                    assert(c.remove(c.len() - 1).len() == c.len() - 1);
                }
            }
        }
        i += 1;
    }
    proof {
        prev.lemma_view();
        assert forall|c: Seq<usize>| is_join_candidate(dom, c) implies views(out@).contains(c) by {
            let x = c.remove(c.len() - 1);
            let y = c.remove(c.len() - 2);
            assert(dom.contains(x) && dom.contains(y));
            let a = choose|a: int| 0 <= a < ks.len() && ks[a] == x;
            let b = choose|b: int| 0 <= b < ks.len() && ks[b] == y;
            assert(joins(ks, a, b, c));
        }
    }
    out
}

/// Two keys join into one candidate only.
proof fn lemma_joined_is_unique(keys: Seq<Seq<usize>>, i: int, j: int, candidate: Seq<usize>)
    requires
        joins(keys, i, j, candidate),
    ensures
        forall|other: Seq<usize>| joins(keys, i, j, other) ==> other == candidate,
{
    assert forall|other: Seq<usize>| joins(keys, i, j, other) implies other == candidate by {
        let n = candidate.len() as int;
        assert(candidate.remove(n - 1).len() == n - 1);
        assert(other.remove(other.len() - 1).len() == other.len() - 1);
        assert(other.len() == n);
        assert forall|r: int| 0 <= r < n implies other[r] == candidate[r] by {
            if r < n - 1 {
                assert(other.remove(n - 1)[r] == other[r]);
                assert(candidate.remove(n - 1)[r] == candidate[r]);
            } else {
                assert(other.remove(n - 2)[n - 2] == other[n - 1]);
                assert(candidate.remove(n - 2)[n - 2] == candidate[n - 1]);
            }
        }
        assert(other =~= candidate);
    }
}

} // verus!
