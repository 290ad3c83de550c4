//! What a stable angular sort guarantees.
//!
//! For given keys there is exactly one stable order, so the result of a
//! sort is fully determined. Sorting twice changes nothing, and the sorted
//! coordinates do not depend on the order in which they were given.

use crate::argument_laws::{
    lemma_before_asymmetric, lemma_before_connected, lemma_before_irreflexive,
    lemma_before_transitive,
};
use crate::argument_order::{arg_before, ArgSortOptions, OriginPolicy};
use crate::argument_sort::{
    is_index_permutation, is_stable_order, is_stable_sort_by, key_before, keys_admissible,
    lemma_key_before_total, permuted,
};
use crate::vector2::is_origin;
use vstd::prelude::*;
use vstd::relations::{sorted_by, total_ordering};

verus! {

/// The positions `0, 1, .., n - 1` in their own order.
pub open spec fn identity_permutation(n: nat) -> Seq<int> {
    Seq::new(n, |i: int| i)
}

/// A permutation of `0 .. n` reaches every position.
pub proof fn lemma_permutation_onto(perm: Seq<int>, n: nat, x: int)
    requires
        is_index_permutation(perm, n),
        0 <= x < n,
    ensures
        exists|j: int| 0 <= j < n && perm[j] == x,
{
    broadcast use vstd::seq_lib::seq_to_set_is_finite;

    let all = vstd::set_lib::set_int_range(0, n as int);
    vstd::set_lib::lemma_int_range(0, n as int);
    assert(perm.no_duplicates());
    perm.unique_seq_to_set();
    assert(perm.to_set().subset_of(all)) by {
        assert forall|v: int| perm.to_set().contains(v) implies all.contains(v) by {
            let j = choose|j: int| 0 <= j < perm.len() && perm[j] == v;
            assert(0 <= perm[j] < n);
        }
    }
    vstd::set_lib::lemma_subset_equality(perm.to_set(), all);
    assert(all.contains(x));
    assert(perm.to_set().contains(x));
    assert(perm.contains(x));
}

/// Keys have at most one stable order: a sort's result is determined by
/// its input.
pub proof fn lemma_stable_order_unique(
    keys: Seq<(i64, i64)>,
    p: Seq<int>,
    q: Seq<int>,
    opt: ArgSortOptions,
)
    requires
        is_stable_order(keys, p, opt),
        is_stable_order(keys, q, opt),
    ensures
        p == q,
{
    let n = keys.len();
    assert forall|i: int| 0 <= i < n implies p[i] == q[i] by {
        lemma_first_difference(keys, p, q, opt, i);
    }
    assert(p =~= q);
}

/// What a sort leaves is what any stable order of the keys gives.
pub proof fn lemma_stable_sort_is<T>(
    before: Seq<T>,
    keys: Seq<(i64, i64)>,
    after: Seq<T>,
    want: Seq<int>,
    opt: ArgSortOptions,
)
    requires
        is_stable_sort_by(before, keys, after, opt),
        is_stable_order(keys, want, opt),
    ensures
        after == permuted(before, want),
{
    let perm = choose|perm: Seq<int>| #[trigger]
        is_stable_order(keys, perm, opt) && after == permuted(before, perm);
    lemma_stable_order_unique(keys, perm, want, opt);
}

/// Two stable orders of the same keys agree up to and including `i`.
proof fn lemma_first_difference(
    keys: Seq<(i64, i64)>,
    p: Seq<int>,
    q: Seq<int>,
    opt: ArgSortOptions,
    i: int,
)
    requires
        is_stable_order(keys, p, opt),
        is_stable_order(keys, q, opt),
        0 <= i < keys.len(),
    ensures
        p[i] == q[i],
    decreases i,
{
    let n = keys.len();
    assert forall|k: int| 0 <= k < i implies p[k] == q[k] by {
        lemma_first_difference(keys, p, q, opt, k);
    }
    let (x, y) = (p[i], q[i]);
    if x != y {
        assert(0 <= x < n && 0 <= y < n);
        lemma_permutation_onto(q, n, x);
        let j = choose|j: int| 0 <= j < n && q[j] == x;
        lemma_permutation_onto(p, n, y);
        let k = choose|k: int| 0 <= k < n && p[k] == y;
        // Both lie behind position `i`, each in the other's order.
        assert(j > i) by {
            if j < i {
                assert(p[j] == q[j]);
            }
        }
        assert(k > i) by {
            if k < i {
                assert(p[k] == q[k]);
            }
        }
        assert(key_before(keys, q[i], q[j], opt));
        assert(key_before(keys, p[i], p[k], opt));
        lemma_key_before_total(keys, x, y, opt);
    }
}

/// In a stable order no key comes after a later one: the sorted
/// coordinates ascend.
pub proof fn lemma_sorted_keys_ascend(
    keys: Seq<(i64, i64)>,
    perm: Seq<int>,
    opt: ArgSortOptions,
    i: int,
    j: int,
)
    requires
        is_stable_order(keys, perm, opt),
        0 <= i < j < keys.len(),
    ensures
        !arg_before(permuted(keys, perm)[j], permuted(keys, perm)[i], opt),
{
    assert(key_before(keys, perm[i], perm[j], opt));
    lemma_before_asymmetric(keys[perm[i]], keys[perm[j]], opt);
}

/// Sorting what is sorted changes nothing: once keys are put in a stable
/// order, their stable order is the identity.
pub proof fn lemma_sorted_stays(keys: Seq<(i64, i64)>, perm: Seq<int>, opt: ArgSortOptions)
    requires
        is_stable_order(keys, perm, opt),
    ensures
        is_stable_order(permuted(keys, perm), identity_permutation(keys.len()), opt),
        permuted(permuted(keys, perm), identity_permutation(keys.len())) == permuted(keys, perm),
{
    let n = keys.len();
    let sorted = permuted(keys, perm);
    let id = identity_permutation(n);
    assert forall|i: int, j: int| 0 <= i < j < n implies key_before(
        sorted,
        #[trigger] id[i],
        #[trigger] id[j],
        opt,
    ) by {
        assert(key_before(keys, perm[i], perm[j], opt));
        lemma_before_asymmetric(keys[perm[i]], keys[perm[j]], opt);
    }
    assert(permuted(sorted, id) =~= sorted);
}

/// Rearranging a sequence by a permutation keeps every item as often as
/// it was there.
pub proof fn lemma_permuted_multiset<A>(items: Seq<A>, perm: Seq<int>)
    requires
        is_index_permutation(perm, items.len()),
    ensures
        permuted(items, perm).to_multiset() == items.to_multiset(),
    decreases items.len(),
{
    broadcast use vstd::multiset::group_multiset_axioms;

    let n = items.len();
    if n == 0 {
        assert(permuted(items, perm) =~= items);
    } else {
        let last = n - 1;
        lemma_permutation_onto(perm, n, last);
        let k = choose|k: int| 0 <= k < n && perm[k] == last;
        let rest = perm.remove(k);
        let front = items.drop_last();
        assert(is_index_permutation(rest, front.len())) by {
            assert forall|i: int| 0 <= i < n - 1 implies 0 <= #[trigger] rest[i] < n - 1 by {
                if i < k {
                    assert(rest[i] == perm[i]);
                } else {
                    assert(rest[i] == perm[i + 1]);
                }
            }
            assert forall|i: int, j: int| 0 <= i < j < n - 1 implies rest[i] != rest[j] by {
                let i2 = if i < k { i } else { i + 1 };
                let j2 = if j < k { j } else { j + 1 };
                assert(rest[i] == perm[i2] && rest[j] == perm[j2]);
            }
        }
        lemma_permuted_multiset(front, rest);
        let whole = permuted(items, perm);
        assert(permuted(front, rest) =~= whole.remove(k)) by {
            assert forall|i: int| 0 <= i < n - 1 implies permuted(front, rest)[i] == whole.remove(
                k,
            )[i] by {
                if i < k {
                    assert(rest[i] == perm[i]);
                } else {
                    assert(rest[i] == perm[i + 1]);
                }
                assert(0 <= rest[i] < n - 1);
            }
        }
        vstd::seq_lib::to_multiset_remove(whole, k);
        assert(whole[k] == items[last]);
        vstd::seq_lib::to_multiset_contains(whole, items[last]);
        assert(whole.contains(whole[k]));
        assert(whole.to_multiset() =~= whole.remove(k).to_multiset().insert(items[last]));
        assert(items =~= front.push(items[last]));
        vstd::seq_lib::to_multiset_build(front, items[last]);
    }
}

/// "Not after" in the angular order, for a policy that places the origin.
spec fn not_after(opt: ArgSortOptions) -> spec_fn((i64, i64), (i64, i64)) -> bool {
    |a: (i64, i64), b: (i64, i64)| !arg_before(b, a, opt)
}

/// Where the origin has a place, "not after" is a total order of all points.
proof fn lemma_not_after_total_ordering(opt: ArgSortOptions)
    requires
        !(opt.origin is Forbid),
    ensures
        total_ordering(not_after(opt)),
{
    let r = not_after(opt);
    assert forall|a: (i64, i64)| #[trigger] r(a, a) by {
        lemma_before_irreflexive(a, opt);
    }
    assert forall|a: (i64, i64), b: (i64, i64)| #[trigger] r(a, b) && #[trigger] r(b, a) implies a
        == b by {
        if a != b {
            lemma_before_connected(a, b, opt);
        }
    }
    assert forall|a: (i64, i64), b: (i64, i64), c: (i64, i64)| #[trigger]
        r(a, b) && #[trigger] r(b, c) implies r(a, c) by {
        if arg_before(c, a, opt) {
            if a != b {
                lemma_before_connected(a, b, opt);
            }
            if b != c {
                lemma_before_connected(b, c, opt);
            }
            if a != b && b != c {
                lemma_before_transitive(a, b, c, opt);
                lemma_before_asymmetric(a, c, opt);
            }
        }
    }
    assert forall|a: (i64, i64), b: (i64, i64)| #[trigger] r(a, b) || #[trigger] r(b, a) by {
        lemma_before_asymmetric(a, b, opt);
    }
}

/// The sorted coordinates do not depend on the order of the input: two
/// arrangements of the same coordinates sort to the same sequence.
pub proof fn lemma_sort_ignores_input_order(
    keys1: Seq<(i64, i64)>,
    perm1: Seq<int>,
    keys2: Seq<(i64, i64)>,
    perm2: Seq<int>,
    opt: ArgSortOptions,
)
    requires
        keys1.to_multiset() == keys2.to_multiset(),
        keys_admissible(keys1, opt),
        is_stable_order(keys1, perm1, opt),
        is_stable_order(keys2, perm2, opt),
    ensures
        permuted(keys1, perm1) == permuted(keys2, perm2),
{
    broadcast use vstd::seq_lib::group_to_multiset_ensures;

    let s1 = permuted(keys1, perm1);
    let s2 = permuted(keys2, perm2);
    lemma_permuted_multiset(keys1, perm1);
    lemma_permuted_multiset(keys2, perm2);
    // Without the origin its policy has no say, so it may be taken to be `Last`.
    let placed = if opt.origin is Forbid {
        ArgSortOptions { origin: OriginPolicy::Last, tie: opt.tie }
    } else {
        opt
    };
    if opt.origin is Forbid {
        assert forall|i: int| 0 <= i < keys2.len() implies !is_origin(#[trigger] keys2[i]) by {
            assert(keys2.contains(keys2[i]));
            assert(keys1.to_multiset().count(keys2[i]) > 0);
            assert(keys1.contains(keys2[i]));
        }
    }
    let leq = not_after(placed);
    lemma_not_after_total_ordering(placed);
    assert(sorted_by(s1, leq)) by {
        assert forall|i: int, j: int| 0 <= i < j < s1.len() implies #[trigger] leq(s1[i], s1[j]) by {
            assert(key_before(keys1, perm1[i], perm1[j], opt));
            assert(0 <= perm1[i] < keys1.len() && 0 <= perm1[j] < keys1.len());
            lemma_before_asymmetric(s1[i], s1[j], opt);
        }
    }
    assert(sorted_by(s2, leq)) by {
        assert forall|i: int, j: int| 0 <= i < j < s2.len() implies #[trigger] leq(s2[i], s2[j]) by {
            assert(key_before(keys2, perm2[i], perm2[j], opt));
            assert(0 <= perm2[i] < keys2.len() && 0 <= perm2[j] < keys2.len());
            lemma_before_asymmetric(s2[i], s2[j], opt);
        }
    }
    vstd::seq_lib::lemma_sorted_unique(s1, s2, leq);
}

} // verus!
