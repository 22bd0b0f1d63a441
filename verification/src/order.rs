//! The lexicographic order on itemsets, by which per-level results are kept.

use crate::types::{views, Itemset};
use vstd::prelude::*;

verus! {

/// `a` comes before `b` lexicographically, given that they agree below index `i`.
pub open spec fn lex_lt_from(a: Seq<usize>, b: Seq<usize>, i: int) -> bool
    decreases a.len() - i,
{
    if i < 0 || i >= b.len() {
        false
    } else if i >= a.len() {
        true
    } else if a[i] != b[i] {
        a[i] < b[i]
    } else {
        lex_lt_from(a, b, i + 1)
    }
}

/// `a` comes strictly before `b` in the lexicographic order.
pub open spec fn lex_lt(a: Seq<usize>, b: Seq<usize>) -> bool {
    lex_lt_from(a, b, 0)
}

/// Every key comes strictly before all later keys.
pub open spec fn lex_ascending(keys: Seq<Seq<usize>>) -> bool {
    forall|i: int, j: int| 0 <= i < j < keys.len() ==> lex_lt(#[trigger] keys[i], #[trigger] keys[j])
}

proof fn lemma_lex_irreflexive_from(a: Seq<usize>, i: int)
    requires
        0 <= i,
    ensures
        !lex_lt_from(a, a, i),
    decreases a.len() - i,
{
    if i < a.len() {
        lemma_lex_irreflexive_from(a, i + 1);
    }
}

/// No itemset comes before itself.
pub proof fn lemma_lex_irreflexive(a: Seq<usize>)
    ensures
        !lex_lt(a, a),
{
    lemma_lex_irreflexive_from(a, 0);
}

proof fn lemma_lex_transitive_from(a: Seq<usize>, b: Seq<usize>, c: Seq<usize>, i: int)
    requires
        0 <= i,
        lex_lt_from(a, b, i),
        lex_lt_from(b, c, i),
    ensures
        lex_lt_from(a, c, i),
    decreases a.len() - i,
{
    if i < a.len() && a[i] == b[i] && b[i] == c[i] {
        lemma_lex_transitive_from(a, b, c, i + 1);
    }
}

/// The order is transitive.
pub proof fn lemma_lex_transitive(a: Seq<usize>, b: Seq<usize>, c: Seq<usize>)
    requires
        lex_lt(a, b),
        lex_lt(b, c),
    ensures
        lex_lt(a, c),
{
    lemma_lex_transitive_from(a, b, c, 0);
}

proof fn lemma_lex_total_from(a: Seq<usize>, b: Seq<usize>, i: int)
    requires
        0 <= i <= a.len(),
        i <= b.len(),
        forall|j: int| 0 <= j < i ==> a[j] == b[j],
        !lex_lt_from(a, b, i),
        !lex_lt_from(b, a, i),
    ensures
        a == b,
    decreases a.len() - i,
{
    if i < a.len() && i < b.len() {
        lemma_lex_total_from(a, b, i + 1);
    } else {
        assert(a =~= b);
    }
}

/// Two itemsets of which neither comes before the other are equal.
pub proof fn lemma_lex_total(a: Seq<usize>, b: Seq<usize>)
    requires
        !lex_lt(a, b),
        !lex_lt(b, a),
    ensures
        a == b,
{
    lemma_lex_total_from(a, b, 0);
}

/// Keys in strictly ascending order are pairwise distinct.
pub proof fn lemma_ascending_distinct(keys: Seq<Seq<usize>>)
    requires
        lex_ascending(keys),
    ensures
        keys.no_duplicates(),
{
    assert forall|i: int, j: int| 0 <= i < keys.len() && 0 <= j < keys.len() && i != j implies keys[i]
        != keys[j] by {
        lemma_lex_irreflexive(keys[i]);
        if i < j {
            assert(lex_lt(keys[i], keys[j]));
        } else {
            assert(lex_lt(keys[j], keys[i]));
        }
    }
}

/// Tells whether `a` comes strictly before `b` in the lexicographic order.
pub fn lex_less(a: &Itemset, b: &Itemset) -> (less: bool)
    ensures
        less == lex_lt(a@, b@),
{
    let mut i: usize = 0;
    while i < a.len() && i < b.len()
        invariant
            i <= a.len(),
            i <= b.len(),
            lex_lt(a@, b@) == lex_lt_from(a@, b@, i as int),
        decreases a.len() - i,
    {
        if a[i] != b[i] {
            return a[i] < b[i];
        }
        i += 1;
    }
    i < b.len()
}

/// Where `x` stands, or would stand, among ascending `keys`: the index of the
/// first key that does not come before `x`, and whether that key is `x`.
pub fn find_itemset(keys: &Vec<Itemset>, x: &Itemset) -> (r: (usize, bool))
    requires
        lex_ascending(views(keys@)),
    ensures
        r.0 <= keys.len(),
        r.1 ==> r.0 < keys.len() && keys@[r.0 as int]@ == x@,
        r.1 == views(keys@).contains(x@),
        forall|i: int| 0 <= i < r.0 ==> lex_lt(#[trigger] keys@[i]@, x@),
        forall|i: int| r.0 <= i < keys.len() && !(r.1 && i == r.0) ==> lex_lt(x@, #[trigger] keys@[i]@),
{
    let n = keys.len();
    let ghost ks = views(keys@);
    let mut lo: usize = 0;
    let mut hi: usize = n;
    if n > 0 && lex_less(&keys[n - 1], x) {
        lo = n;
        proof {
            assert forall|i: int| 0 <= i < n implies lex_lt(#[trigger] keys@[i]@, x@) by {
                if i < n - 1 {
                    assert(lex_lt(ks[i], ks[n - 1]));
                    lemma_lex_transitive(ks[i], ks[n - 1], x@);
                }
            }
        }
    }
    while lo < hi
        invariant
            lo <= hi <= n,
            n == keys.len(),
            ks == views(keys@),
            lex_ascending(ks),
            forall|i: int| 0 <= i < lo ==> lex_lt(#[trigger] keys@[i]@, x@),
            forall|i: int| hi <= i < n ==> !lex_lt(#[trigger] keys@[i]@, x@),
        decreases hi - lo,
    {
        let mid = lo + (hi - lo) / 2;
        if lex_less(&keys[mid], x) {
            proof {
                assert forall|i: int| 0 <= i < mid + 1 implies lex_lt(#[trigger] keys@[i]@, x@) by {
                    if i < mid {
                        assert(lex_lt(ks[i], ks[mid as int]));
                        lemma_lex_transitive(ks[i], ks[mid as int], x@);
                    }
                }
            }
            lo = mid + 1;
        } else {
            proof {
                assert forall|i: int| mid <= i < n implies !lex_lt(#[trigger] keys@[i]@, x@) by {
                    if mid < i && lex_lt(keys@[i]@, x@) {
                        assert(lex_lt(ks[mid as int], ks[i]));
                        lemma_lex_transitive(ks[mid as int], ks[i], x@);
                    }
                }
            }
            hi = mid;
        }
    }
    let found = lo < n && !lex_less(x, &keys[lo]);
    proof {
        if found {
            lemma_lex_total(keys@[lo as int]@, x@);
            assert(ks[lo as int] == x@);
        }
        assert forall|i: int| lo <= i < n && !(found && i == lo) implies lex_lt(
            x@,
            #[trigger] keys@[i]@,
        ) by {
            if i > lo {
                assert(lex_lt(ks[lo as int], ks[i]));
                if found {
                } else {
                    lemma_lex_transitive(x@, ks[lo as int], ks[i]);
                }
            }
        }
        if !found {
            assert forall|i: int| 0 <= i < n implies ks[i] != x@ by {
                lemma_lex_irreflexive(x@);
                if i < lo {
                    assert(lex_lt(keys@[i]@, x@));
                } else {
                    assert(lex_lt(x@, keys@[i]@));
                }
            }
        }
    }
    (lo, found)
}

/// `a` and `b` agree on their first `len` items.
pub open spec fn shares_prefix(a: Seq<usize>, b: Seq<usize>, len: int) -> bool {
    &&& a.len() >= len
    &&& b.len() >= len
    &&& forall|r: int| 0 <= r < len ==> a[r] == b[r]
}

proof fn lemma_prefix_then_less_from(a: Seq<usize>, b: Seq<usize>, len: int, i: int)
    requires
        0 <= i <= len,
        len < a.len(),
        len < b.len(),
        shares_prefix(a, b, len),
        a[len] < b[len],
    ensures
        lex_lt_from(a, b, i),
    decreases len - i,
{
    if i < len {
        lemma_prefix_then_less_from(a, b, len, i + 1);
    }
}

/// Of two itemsets that agree on their first `len` items, the one with the
/// smaller item at index `len` comes first.
pub proof fn lemma_prefix_then_less(a: Seq<usize>, b: Seq<usize>, len: int)
    requires
        0 <= len < a.len(),
        len < b.len(),
        shares_prefix(a, b, len),
        a[len] < b[len],
    ensures
        lex_lt(a, b),
{
    lemma_prefix_then_less_from(a, b, len, 0);
}

proof fn lemma_between_shares_prefix_from(
    x: Seq<usize>,
    y: Seq<usize>,
    z: Seq<usize>,
    len: int,
    i: int,
)
    requires
        0 <= i <= len,
        shares_prefix(x, z, len),
        lex_lt_from(x, y, i),
        lex_lt_from(y, z, i),
        y.len() >= i,
        forall|r: int| 0 <= r < i ==> y[r] == x[r],
    ensures
        shares_prefix(y, x, len),
    decreases len - i,
{
    if i < len {
        lemma_between_shares_prefix_from(x, y, z, len, i + 1);
    }
}

/// An itemset that stands between two itemsets with a common prefix has that
/// prefix too.
pub proof fn lemma_between_shares_prefix(x: Seq<usize>, y: Seq<usize>, z: Seq<usize>, len: int)
    requires
        0 <= len,
        shares_prefix(x, z, len),
        lex_lt(x, y),
        lex_lt(y, z),
    ensures
        shares_prefix(y, x, len),
{
    lemma_between_shares_prefix_from(x, y, z, len, 0);
}

/// Putting `x` where `find_itemset` places it keeps the keys ascending and
/// adds `x` to them, nothing else.
pub proof fn lemma_insert_ascending(keys: Seq<Seq<usize>>, pos: int, x: Seq<usize>)
    requires
        lex_ascending(keys),
        0 <= pos <= keys.len(),
        forall|i: int| 0 <= i < pos ==> lex_lt(#[trigger] keys[i], x),
        forall|i: int| pos <= i < keys.len() ==> lex_lt(x, #[trigger] keys[i]),
    ensures
        lex_ascending(keys.insert(pos, x)),
        forall|k: Seq<usize>| keys.insert(pos, x).contains(k) <==> keys.contains(k) || k == x,
{
    let after = keys.insert(pos, x);
    assert forall|i: int, j: int| 0 <= i < j < after.len() implies lex_lt(
        #[trigger] after[i],
        #[trigger] after[j],
    ) by {
        let a = if i < pos { i } else { i - 1 };
        let b = if j < pos { j } else { j - 1 };
        if i != pos && j != pos {
            assert(lex_lt(keys[a], keys[b]));
        } else if i == pos {
            assert(lex_lt(x, keys[b]));
        } else {
            assert(lex_lt(keys[a], x));
        }
    }
    assert forall|k: Seq<usize>| after.contains(k) <==> keys.contains(k) || k == x by {
        if after.contains(k) {
            let i = choose|i: int| 0 <= i < after.len() && after[i] == k;
            if i < pos {
                assert(keys[i] == k);
            } else if i > pos {
                assert(keys[i - 1] == k);
            }
        }
        if keys.contains(k) {
            let i = choose|i: int| 0 <= i < keys.len() && keys[i] == k;
            if i < pos {
                assert(after[i] == k);
            } else {
                assert(after[i + 1] == k);
            }
        }
        assert(after[pos] == x);
    }
}

/// Adds `itemset` to the ascending `keys`, unless it is among them already.
pub fn insert_unique(keys: &mut Vec<Itemset>, itemset: Itemset)
    requires
        lex_ascending(views(old(keys)@)),
    ensures
        lex_ascending(views(final(keys)@)),
        forall|k: Seq<usize>|
            views(final(keys)@).contains(k) <==> views(old(keys)@).contains(k) || k == itemset@,
{
    let (pos, found) = find_itemset(keys, &itemset);
    if !found {
        let ghost before = views(keys@);
        keys.insert(pos, itemset);
        proof {
            assert(views(keys@) =~= before.insert(pos as int, itemset@));
            lemma_insert_ascending(before, pos as int, itemset@);
        }
    }
}

/// Tells whether `a` and `b` agree on their first `len` items.
pub fn has_prefix(a: &Itemset, b: &Itemset, len: usize) -> (same: bool)
    ensures
        same == shares_prefix(a@, b@, len as int),
{
    if a.len() < len || b.len() < len {
        return false;
    }
    let mut r: usize = 0;
    while r < len
        invariant
            r <= len,
            len <= a.len(),
            len <= b.len(),
            forall|q: int| 0 <= q < r ==> a@[q] == b@[q],
        decreases len - r,
    {
        if a[r] != b[r] {
            return false;
        }
        r += 1;
    }
    true
}

} // verus!
