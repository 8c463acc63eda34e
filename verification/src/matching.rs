//! The rule by which declared elements are matched to previous children.
//!
//! Previous children are taken in the order in which they stand. A declared element
//! continues the first previous child that has the same component identity
//! and key and has not been taken by an earlier declared element.

use vstd::prelude::*;
use crate::element::ChildKey;

verus! {

/// The first position at or after `from` whose previous child has key `k`
/// and is not in `used`. A previous child without a key (`None` in `prev`)
/// is one that no longer exists; it matches nothing.
pub open spec fn first_free(
    prev: Seq<Option<ChildKey>>,
    used: Set<int>,
    k: ChildKey,
    from: int,
) -> Option<int>
    decreases prev.len() - from,
{
    if from < 0 || from >= prev.len() {
        None
    } else if !used.contains(from) && prev[from] == Some(k) {
        Some(from)
    } else {
        first_free(prev, used, k, from + 1)
    }
}

/// The positions of previous children taken by the first `i` declared
/// elements.
pub open spec fn used_before(prev: Seq<Option<ChildKey>>, next: Seq<ChildKey>, i: nat) -> Set<int>
    decreases i,
{
    if i == 0 {
        Set::empty()
    } else {
        let before = used_before(prev, next, (i - 1) as nat);
        match first_free(prev, before, next[i - 1], 0) {
            Some(j) => before.insert(j),
            None => before,
        }
    }
}

/// The position of the previous child that declared element `i` continues,
/// or `None` when a new scope has to be created for it.
pub open spec fn match_at(prev: Seq<Option<ChildKey>>, next: Seq<ChildKey>, i: int) -> Option<int> {
    first_free(prev, used_before(prev, next, i as nat), next[i], 0)
}

/// How many of the first `upto` entries of `keys` equal `k`.
pub open spec fn occurrences(keys: Seq<Option<ChildKey>>, k: ChildKey, upto: int) -> nat
    decreases upto,
{
    if upto <= 0 {
        0
    } else {
        occurrences(keys, k, upto - 1) + if keys[upto - 1] == Some(k) {
            1nat
        } else {
            0nat
        }
    }
}

/// What `first_free` finds: a free position with the key, before which no
/// free position has it; or nothing, when no free position has it.
pub proof fn lemma_first_free(prev: Seq<Option<ChildKey>>, used: Set<int>, k: ChildKey, from: int)
    requires
        0 <= from,
    ensures
        match first_free(prev, used, k, from) {
            Some(j) => {
                &&& from <= j < prev.len()
                &&& !used.contains(j)
                &&& prev[j] == Some(k)
                &&& forall|j2: int| from <= j2 < j ==> used.contains(j2) || prev[j2] != Some(k)
            },
            None => forall|j2: int|
                from <= j2 < prev.len() ==> used.contains(j2) || prev[j2] != Some(k),
        },
    decreases prev.len() - from,
{
    if from < prev.len() && !(!used.contains(from) && prev[from] == Some(k)) {
        lemma_first_free(prev, used, k, from + 1);
    }
}

/// Every taken position lies within the previous children.
pub proof fn lemma_used_in_range(prev: Seq<Option<ChildKey>>, next: Seq<ChildKey>, i: nat)
    ensures
        forall|j: int| used_before(prev, next, i).contains(j) ==> 0 <= j < prev.len(),
        used_before(prev, next, i).finite(),
    decreases i,
{
    if i > 0 {
        lemma_used_in_range(prev, next, (i - 1) as nat);
        lemma_first_free(prev, used_before(prev, next, (i - 1) as nat), next[i - 1], 0);
    }
}

/// What has been taken stays taken.
pub proof fn lemma_used_grows(prev: Seq<Option<ChildKey>>, next: Seq<ChildKey>, a: nat, b: nat)
    requires
        a <= b,
    ensures
        used_before(prev, next, a).subset_of(used_before(prev, next, b)),
    decreases b - a,
{
    if a < b {
        lemma_used_grows(prev, next, a, (b - 1) as nat);
    }
}

/// No previous child is continued twice: two declared elements that both
/// continue a previous child continue different ones.
pub proof fn lemma_matches_differ(prev: Seq<Option<ChildKey>>, next: Seq<ChildKey>, a: int, b: int)
    requires
        0 <= a < b,
        match_at(prev, next, a) is Some,
        match_at(prev, next, b) is Some,
    ensures
        match_at(prev, next, a) != match_at(prev, next, b),
{
    lemma_used_grows(prev, next, (a + 1) as nat, b as nat);
    lemma_first_free(prev, used_before(prev, next, b as nat), next[b], 0);
    assert(used_before(prev, next, (a + 1) as nat).contains(match_at(prev, next, a)->0));
}

/// How many of the first `upto` declared keys equal `k`.
pub open spec fn declared_before(next: Seq<ChildKey>, k: ChildKey, upto: int) -> nat
    decreases upto,
{
    if upto <= 0 {
        0
    } else {
        declared_before(next, k, upto - 1) + if next[upto - 1] == k {
            1nat
        } else {
            0nat
        }
    }
}

/// Among the previous children with key `k`, a later one has more of them
/// before it than an earlier one.
proof fn lemma_rank_grows(prev: Seq<Option<ChildKey>>, k: ChildKey, p: int, q: int)
    requires
        0 <= p < q <= prev.len(),
        prev[p] == Some(k),
    ensures
        occurrences(prev, k, q) >= occurrences(prev, k, p) + 1,
    decreases q - p,
{
    if q > p + 1 {
        lemma_rank_grows(prev, k, p, q - 1);
    }
}

/// If more than `n` of the first `j` previous children have key `k`, one
/// of them has exactly `n` of them before it.
proof fn lemma_rank_reached(prev: Seq<Option<ChildKey>>, k: ChildKey, j: int, n: nat) -> (p: int)
    requires
        0 <= j <= prev.len(),
        n < occurrences(prev, k, j),
    ensures
        0 <= p < j,
        prev[p] == Some(k),
        occurrences(prev, k, p) == n,
    decreases j,
{
    if prev[j - 1] == Some(k) && occurrences(prev, k, j - 1) == n {
        j - 1
    } else {
        lemma_rank_reached(prev, k, j - 1, n)
    }
}

/// A previous child is taken by the first `i` declared elements exactly
/// when fewer children with its key come before it than elements with its
/// key have been declared.
proof fn lemma_used_by_rank(prev: Seq<Option<ChildKey>>, next: Seq<ChildKey>, i: nat)
    requires
        i <= next.len(),
    ensures
        forall|p: int|
            0 <= p < prev.len() ==> (#[trigger] used_before(prev, next, i).contains(p) <==> prev[p]
                is Some && occurrences(prev, prev[p]->0, p) < declared_before(
                next,
                prev[p]->0,
                i as int,
            )),
    decreases i,
{
    if i > 0 {
        let before = used_before(prev, next, (i - 1) as nat);
        let k = next[i - 1];
        let n = declared_before(next, k, i - 1);
        lemma_used_by_rank(prev, next, (i - 1) as nat);
        lemma_first_free(prev, before, k, 0);
        lemma_used_in_range(prev, next, (i - 1) as nat);
        let found = first_free(prev, before, k, 0);
        assert forall|p: int| 0 <= p < prev.len() implies (#[trigger] used_before(
            prev,
            next,
            i,
        ).contains(p) <==> prev[p] is Some && occurrences(prev, prev[p]->0, p) < declared_before(
            next,
            prev[p]->0,
            i as int,
        )) by {
            if prev[p] == Some(k) {
                match found {
                    Some(j) => {
                        if occurrences(prev, k, j) > n {
                            let q = lemma_rank_reached(prev, k, j, n);
                            assert(before.contains(q));
                        }
                        if p < j {
                            lemma_rank_grows(prev, k, p, j);
                        }
                        if j < p {
                            lemma_rank_grows(prev, k, j, p);
                        }
                    },
                    None => {
                        assert(before.contains(p));
                    },
                }
            }
        }
    }
}

/// The tie-break rule. The declared element `i` continues the previous
/// child with its key that has as many children with that key before it as
/// elements with that key were declared before `i`: the Nth declared
/// sibling matches the Nth previous occurrence. It continues nothing
/// exactly when the previous children with its key have run out.
pub proof fn lemma_nth_matches_nth(prev: Seq<Option<ChildKey>>, next: Seq<ChildKey>, i: int)
    requires
        0 <= i < next.len(),
    ensures
        match match_at(prev, next, i) {
            Some(j) => {
                &&& 0 <= j < prev.len()
                &&& prev[j] == Some(next[i])
                &&& occurrences(prev, next[i], j) == declared_before(next, next[i], i)
            },
            None => occurrences(prev, next[i], prev.len() as int) <= declared_before(
                next,
                next[i],
                i,
            ),
        },
{
    let used = used_before(prev, next, i as nat);
    let k = next[i];
    let n = declared_before(next, k, i);
    lemma_used_by_rank(prev, next, i as nat);
    lemma_first_free(prev, used, k, 0);
    match first_free(prev, used, k, 0) {
        Some(j) => {
            if occurrences(prev, k, j) > n {
                let q = lemma_rank_reached(prev, k, j, n);
                assert(used.contains(q));
            }
        },
        None => {
            if occurrences(prev, k, prev.len() as int) > n {
                let q = lemma_rank_reached(prev, k, prev.len() as int, n);
                assert(used.contains(q));
            }
        },
    }
}

/// Keyed children keep their scopes under reordering. If `j` is the first
/// previous child with the key of the declared element `i`, and no earlier
/// declared element has that key, then `i` continues `j`, wherever the two
/// stand among their siblings.
pub proof fn lemma_keyed_match(
    prev: Seq<Option<ChildKey>>,
    next: Seq<ChildKey>,
    i: int,
    j: int,
)
    requires
        0 <= i < next.len(),
        0 <= j < prev.len(),
        prev[j] == Some(next[i]),
        forall|j2: int| 0 <= j2 < j ==> prev[j2] != Some(next[i]),
        forall|i2: int| 0 <= i2 < i ==> next[i2] != next[i],
    ensures
        match_at(prev, next, i) == Some(j),
{
    let k = next[i];
    lemma_nth_matches_nth(prev, next, i);
    lemma_none_declared(next, k, i);
    lemma_none_before(prev, k, j);
    lemma_rank_grows(prev, k, j, prev.len() as int);
    match match_at(prev, next, i) {
        Some(found) => {
            if found > j {
                lemma_rank_grows(prev, k, j, found);
            }
        },
        None => {},
    }
}

/// No occurrence is counted where the key does not occur.
proof fn lemma_none_before(prev: Seq<Option<ChildKey>>, k: ChildKey, j: int)
    requires
        0 <= j <= prev.len(),
        forall|j2: int| 0 <= j2 < j ==> prev[j2] != Some(k),
    ensures
        occurrences(prev, k, j) == 0,
    decreases j,
{
    if j > 0 {
        lemma_none_before(prev, k, j - 1);
    }
}

/// No declaration is counted where the key was not declared.
proof fn lemma_none_declared(next: Seq<ChildKey>, k: ChildKey, i: int)
    requires
        0 <= i <= next.len(),
        forall|i2: int| 0 <= i2 < i ==> next[i2] != k,
    ensures
        declared_before(next, k, i) == 0,
    decreases i,
{
    if i > 0 {
        lemma_none_declared(next, k, i - 1);
    }
}

/// Where every previous child and every declared element has the key `k`,
/// all of the first `n` are counted.
proof fn lemma_all_counted(prev: Seq<Option<ChildKey>>, next: Seq<ChildKey>, k: ChildKey, n: int)
    requires
        forall|j: int| 0 <= j < prev.len() ==> prev[j] == Some(k),
        forall|i: int| 0 <= i < next.len() ==> next[i] == k,
        0 <= n,
    ensures
        n <= prev.len() ==> occurrences(prev, k, n) == n,
        n <= next.len() ==> declared_before(next, k, n) == n,
    decreases n,
{
    if n > 0 {
        lemma_all_counted(prev, next, k, n - 1);
    }
}

/// Siblings that share one key are matched by position. Where every
/// previous child and every declared element has the same key, the declared
/// element `i` continues the previous child `i`, and the declared elements
/// beyond the previous children continue nothing.
pub proof fn lemma_positional_match(
    prev: Seq<Option<ChildKey>>,
    next: Seq<ChildKey>,
    k: ChildKey,
    i: int,
)
    requires
        0 <= i < next.len(),
        forall|j: int| 0 <= j < prev.len() ==> prev[j] == Some(k),
        forall|i2: int| 0 <= i2 < next.len() ==> next[i2] == k,
    ensures
        match_at(prev, next, i) == if i < prev.len() {
            Some(i)
        } else {
            None::<int>
        },
{
    lemma_nth_matches_nth(prev, next, i);
    lemma_all_counted(prev, next, k, i);
    lemma_all_counted(prev, next, k, prev.len() as int);
    match match_at(prev, next, i) {
        Some(j) => {
            lemma_all_counted(prev, next, k, j);
        },
        None => {},
    }
}

} // verus!
