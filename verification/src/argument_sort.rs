//! Sorting arbitrary records by the direction of a projected point.
//!
//! Each record is projected to its coordinates once. The records are then
//! rearranged so that the coordinates ascend in the angular order; records
//! whose coordinates compare equal keep the relative order they had.

use crate::argument_order::{
    arg_before, cmp_by_argument_i64, comparable, ArgSortError, ArgSortOptions, OriginPolicy,
};
use crate::argument_laws::{
    lemma_before_asymmetric, lemma_before_connected, lemma_before_irreflexive,
    lemma_before_transitive,
};
use crate::vector2::is_origin;
use std::cmp::Ordering;
use vstd::prelude::*;

verus! {

/// The order of positions `i` and `j` of `keys`: by the angular order of
/// the keys, and by position where the keys compare equal.
pub open spec fn key_before(keys: Seq<(i64, i64)>, i: int, j: int, opt: ArgSortOptions) -> bool {
    arg_before(keys[i], keys[j], opt) || (!arg_before(keys[j], keys[i], opt) && i < j)
}

/// Whether `perm` lists every position `0 .. n` exactly once.
pub open spec fn is_index_permutation(perm: Seq<int>, n: nat) -> bool {
    &&& perm.len() == n
    &&& forall|i: int| 0 <= i < n ==> 0 <= #[trigger] perm[i] < n
    &&& forall|i: int, j: int| 0 <= i < j < n ==> perm[i] != perm[j]
}

/// Whether `perm` lists the positions of `keys` in ascending stable order.
pub open spec fn is_stable_order(keys: Seq<(i64, i64)>, perm: Seq<int>, opt: ArgSortOptions) -> bool {
    &&& is_index_permutation(perm, keys.len())
    &&& forall|i: int, j: int|
        0 <= i < j < perm.len() ==> key_before(keys, #[trigger] perm[i], #[trigger] perm[j], opt)
}

/// The items of `items` taken in the order that `perm` lists.
pub open spec fn permuted<A>(items: Seq<A>, perm: Seq<int>) -> Seq<A> {
    Seq::new(perm.len(), |i: int| items[perm[i]])
}

/// Whether every key may take part in a comparison: none is the origin
/// where the origin is forbidden.
pub open spec fn keys_admissible(keys: Seq<(i64, i64)>, opt: ArgSortOptions) -> bool {
    opt.origin is Forbid ==> forall|i: int| 0 <= i < keys.len() ==> !is_origin(#[trigger] keys[i])
}

/// Whether `keys` holds, position by position, coordinates that `to_xy`
/// returns for `items`.
pub open spec fn is_projection<T, F: Fn(&T) -> (i64, i64)>(
    to_xy: F,
    items: Seq<T>,
    keys: Seq<(i64, i64)>,
) -> bool {
    &&& keys.len() == items.len()
    &&& forall|i: int| 0 <= i < items.len() ==> call_ensures(to_xy, (&items[i],), #[trigger] keys[i])
}

/// Whether a sort of `keys` compares only what may be compared: a sequence
/// of fewer than two keys needs no comparison at all.
pub open spec fn sortable(keys: Seq<(i64, i64)>, opt: ArgSortOptions) -> bool {
    keys.len() >= 2 ==> keys_admissible(keys, opt)
}

/// Whether `after` is `before` stably sorted by the keys `keys`.
pub open spec fn is_stable_sort_by<T>(
    before: Seq<T>,
    keys: Seq<(i64, i64)>,
    after: Seq<T>,
    opt: ArgSortOptions,
) -> bool {
    exists|perm: Seq<int>| #[trigger]
        is_stable_order(keys, perm, opt) && after == permuted(before, perm)
}

/// Applies `to_xy` to every item.
fn project_all<T, F: Fn(&T) -> (i64, i64)>(pts: &[T], to_xy: &F) -> (keys: Vec<(i64, i64)>)
    requires
        forall|i: int| 0 <= i < pts@.len() ==> call_requires(*to_xy, (&pts@[i],)),
    ensures
        is_projection(*to_xy, pts@, keys@),
{
    let mut keys: Vec<(i64, i64)> = Vec::new();
    let n = pts.len();
    let mut i: usize = 0;
    while i < n
        invariant
            n == pts@.len(),
            i <= n,
            keys@.len() == i,
            forall|k: int| 0 <= k < pts@.len() ==> call_requires(*to_xy, (&pts@[k],)),
            forall|k: int| 0 <= k < i ==> call_ensures(*to_xy, (&pts@[k],), #[trigger] keys@[k]),
        decreases n - i,
    {
        let k = to_xy(&pts[i]);
        keys.push(k);
        i += 1;
    }
    keys
}

/// On positions whose keys may be compared, [`key_before`] is transitive.
pub proof fn lemma_key_before_transitive(
    keys: Seq<(i64, i64)>,
    x: int,
    y: int,
    z: int,
    opt: ArgSortOptions,
)
    requires
        comparable(keys[x], keys[y], opt),
        comparable(keys[y], keys[z], opt),
        key_before(keys, x, y, opt),
        key_before(keys, y, z, opt),
    ensures
        key_before(keys, x, z, opt),
{
    let (a, b, c) = (keys[x], keys[y], keys[z]);
    lemma_before_irreflexive(a, opt);
    lemma_before_asymmetric(a, b, opt);
    lemma_before_asymmetric(b, c, opt);
    if a != b {
        lemma_before_connected(a, b, opt);
    }
    if b != c {
        lemma_before_connected(b, c, opt);
    }
    if arg_before(a, b, opt) && arg_before(b, c, opt) {
        lemma_before_transitive(a, b, c, opt);
    }
    lemma_before_asymmetric(a, c, opt);
}

/// No position comes before itself, and of two different positions exactly
/// one comes before the other.
pub proof fn lemma_key_before_total(keys: Seq<(i64, i64)>, x: int, y: int, opt: ArgSortOptions)
    ensures
        !key_before(keys, x, x, opt),
        !(key_before(keys, x, y, opt) && key_before(keys, y, x, opt)),
        x != y ==> key_before(keys, x, y, opt) || key_before(keys, y, x, opt),
{
    lemma_before_irreflexive(keys[x], opt);
    lemma_before_asymmetric(keys[x], keys[y], opt);
}

/// "Not after" is transitive: if `x` is not after `y` and `y` is not after
/// `z`, then `x` is not after `z`.
proof fn lemma_not_after_chain(keys: Seq<(i64, i64)>, x: int, y: int, z: int, opt: ArgSortOptions)
    requires
        comparable(keys[x], keys[y], opt),
        comparable(keys[y], keys[z], opt),
        !key_before(keys, y, x, opt),
        !key_before(keys, z, y, opt),
    ensures
        !key_before(keys, z, x, opt),
{
    lemma_key_before_total(keys, x, y, opt);
    lemma_key_before_total(keys, y, z, opt);
    lemma_key_before_total(keys, x, z, opt);
    if x != y && y != z {
        lemma_key_before_transitive(keys, x, y, z, opt);
    }
}

/// Decides [`key_before`] for two positions and their keys.
fn position_before(ka: (i64, i64), i: usize, kb: (i64, i64), j: usize, opt: ArgSortOptions) -> (r:
    bool)
    requires
        comparable(ka, kb, opt),
    ensures
        r == (arg_before(ka, kb, opt) || (!arg_before(kb, ka, opt) && i < j)),
{
    proof {
        lemma_before_asymmetric(ka, kb, opt);
    }
    match cmp_by_argument_i64(ka, kb, opt) {
        Ordering::Less => true,
        Ordering::Greater => false,
        Ordering::Equal => i < j,
    }
}

/// Whether every entry of `s` is a position of a sequence of length `n`.
spec fn positions_below(s: Seq<usize>, n: nat) -> bool {
    forall|i: int| 0 <= i < s.len() ==> #[trigger] s[i] < n
}

/// Whether no entry of `s` comes after a later entry.
spec fn non_descending(keys: Seq<(i64, i64)>, s: Seq<usize>, opt: ArgSortOptions) -> bool {
    forall|i: int, j: int|
        0 <= i < j < s.len() ==> !key_before(keys, #[trigger] s[j] as int, #[trigger] s[i] as int, opt)
}

/// Whether no entry of `s` from position `from` on comes before an entry of `out`.
spec fn all_not_after(
    keys: Seq<(i64, i64)>,
    out: Seq<usize>,
    s: Seq<usize>,
    from: int,
    opt: ArgSortOptions,
) -> bool {
    forall|k: int, i: int|
        0 <= k < out.len() && from <= i < s.len() ==> !key_before(
            keys,
            #[trigger] s[i] as int,
            #[trigger] out[k] as int,
            opt,
        )
}

/// Merges two non-descending runs of positions into one.
fn merge_runs(keys: &Vec<(i64, i64)>, a: &Vec<usize>, b: &Vec<usize>, opt: ArgSortOptions) -> (out:
    Vec<usize>)
    requires
        keys_admissible(keys@, opt),
        positions_below(a@, keys@.len()),
        positions_below(b@, keys@.len()),
        non_descending(keys@, a@, opt),
        non_descending(keys@, b@, opt),
    ensures
        out@.to_multiset() == a@.to_multiset().add(b@.to_multiset()),
        positions_below(out@, keys@.len()),
        non_descending(keys@, out@, opt),
{
    let mut out: Vec<usize> = Vec::new();
    let mut i: usize = 0;
    let mut j: usize = 0;
    let (na, nb) = (a.len(), b.len());
    proof {
        broadcast use vstd::seq_lib::group_to_multiset_ensures;

        assert(a@.subrange(0, 0) =~= Seq::<usize>::empty());
        assert(b@.subrange(0, 0) =~= Seq::<usize>::empty());
        assert(out@ =~= Seq::<usize>::empty());
        assert(out@.to_multiset() =~= a@.subrange(0, 0).to_multiset().add(
            b@.subrange(0, 0).to_multiset(),
        ));
    }
    while i < na || j < nb
        invariant
            na == a@.len(),
            nb == b@.len(),
            i <= na,
            j <= nb,
            keys_admissible(keys@, opt),
            positions_below(a@, keys@.len()),
            positions_below(b@, keys@.len()),
            non_descending(keys@, a@, opt),
            non_descending(keys@, b@, opt),
            out@.to_multiset() == a@.subrange(0, i as int).to_multiset().add(
                b@.subrange(0, j as int).to_multiset(),
            ),
            positions_below(out@, keys@.len()),
            non_descending(keys@, out@, opt),
            all_not_after(keys@, out@, a@, i as int, opt),
            all_not_after(keys@, out@, b@, j as int, opt),
        decreases (na - i) + (nb - j),
    {
        let from_a = if j >= nb {
            true
        } else if i >= na {
            false
        } else {
            !position_before(keys[b[j]], b[j], keys[a[i]], a[i], opt)
        };
        let ghost prev = out@;
        if from_a {
            let x = a[i];
            out.push(x);
            proof {
                assert(a@.subrange(0, i + 1) =~= a@.subrange(0, i as int).push(x));
                vstd::seq_lib::to_multiset_build(a@.subrange(0, i as int), x);
                vstd::seq_lib::to_multiset_build(prev, x);
                assert(out@.to_multiset() =~= a@.subrange(0, i + 1).to_multiset().add(
                    b@.subrange(0, j as int).to_multiset(),
                ));
                assert forall|k: int, t: int| 0 <= k < out@.len() && j <= t < b@.len() implies !key_before(
                    keys@,
                    #[trigger] b@[t] as int,
                    #[trigger] out@[k] as int,
                    opt,
                ) by {
                    if k == prev.len() {
                        if t > j {
                            lemma_not_after_chain(keys@, x as int, b@[j as int] as int, b@[t] as int, opt);
                        }
                    }
                }
                lemma_key_before_total(keys@, x as int, x as int, opt);
            }
            i += 1;
        } else {
            let y = b[j];
            out.push(y);
            proof {
                assert(b@.subrange(0, j + 1) =~= b@.subrange(0, j as int).push(y));
                vstd::seq_lib::to_multiset_build(b@.subrange(0, j as int), y);
                vstd::seq_lib::to_multiset_build(prev, y);
                assert(out@.to_multiset() =~= a@.subrange(0, i as int).to_multiset().add(
                    b@.subrange(0, j + 1).to_multiset(),
                ));
                if i < na {
                    lemma_key_before_total(keys@, y as int, a@[i as int] as int, opt);
                }
                assert forall|k: int, t: int| 0 <= k < out@.len() && i <= t < a@.len() implies !key_before(
                    keys@,
                    #[trigger] a@[t] as int,
                    #[trigger] out@[k] as int,
                    opt,
                ) by {
                    if k == prev.len() {
                        if t > i {
                            lemma_not_after_chain(keys@, y as int, a@[i as int] as int, a@[t] as int, opt);
                        }
                    }
                }
                lemma_key_before_total(keys@, y as int, y as int, opt);
            }
            j += 1;
        }
    }
    proof {
        assert(a@.subrange(0, i as int) =~= a@);
        assert(b@.subrange(0, j as int) =~= b@);
    }
    out
}

/// The positions `lo, lo + 1, .., hi - 1` in ascending order.
spec fn position_range(lo: int, hi: int) -> Seq<usize> {
    Seq::new((hi - lo) as nat, |i: int| (lo + i) as usize)
}

/// Sorts the positions `lo .. hi` of `keys` by merging sorted halves.
fn sort_positions(keys: &Vec<(i64, i64)>, lo: usize, hi: usize, opt: ArgSortOptions) -> (out: Vec<
    usize,
>)
    requires
        lo <= hi <= keys@.len(),
        hi - lo >= 2 ==> keys_admissible(keys@, opt),
    ensures
        out@.to_multiset() == position_range(lo as int, hi as int).to_multiset(),
        positions_below(out@, keys@.len()),
        non_descending(keys@, out@, opt),
    decreases hi - lo,
{
    if hi - lo < 2 {
        let mut out: Vec<usize> = Vec::new();
        if lo < hi {
            out.push(lo);
        }
        assert(out@ =~= position_range(lo as int, hi as int));
        proof {
            if lo < hi {
                lemma_key_before_total(keys@, lo as int, lo as int, opt);
            }
        }
        return out;
    }
    let mid = lo + (hi - lo) / 2;
    let left = sort_positions(keys, lo, mid, opt);
    let right = sort_positions(keys, mid, hi, opt);
    proof {
        let l = position_range(lo as int, mid as int);
        let r = position_range(mid as int, hi as int);
        assert(l + r =~= position_range(lo as int, hi as int));
        vstd::seq_lib::lemma_multiset_commutative(l, r);
    }
    merge_runs(keys, &left, &right, opt)
}

/// Turns a sequence of positions into the sequence of their values.
spec fn as_ints(s: Seq<usize>) -> Seq<int> {
    Seq::new(s.len(), |i: int| s[i] as int)
}

/// A non-descending arrangement of all positions is the stable order.
proof fn lemma_arrangement_is_stable_order(
    keys: Seq<(i64, i64)>,
    order: Seq<usize>,
    opt: ArgSortOptions,
)
    requires
        keys.len() <= usize::MAX,
        order.to_multiset() == position_range(0, keys.len() as int).to_multiset(),
        non_descending(keys, order, opt),
    ensures
        is_stable_order(keys, as_ints(order), opt),
{
    broadcast use vstd::seq_lib::group_to_multiset_ensures;

    let n = keys.len();
    let all = position_range(0, n as int);
    vstd::seq_lib::to_multiset_len(order);
    vstd::seq_lib::to_multiset_len(all);
    assert forall|i: int| 0 <= i < n implies 0 <= #[trigger] as_ints(order)[i] < n by {
        assert(order.contains(order[i]));
        assert(all.to_multiset().count(order[i]) > 0);
        assert(all.contains(order[i]));
    }
    assert(all.no_duplicates());
    all.lemma_multiset_has_no_duplicates();
    order.lemma_multiset_has_no_duplicates_conv();
    assert forall|i: int, j: int| 0 <= i < j < n implies key_before(
        keys,
        #[trigger] as_ints(order)[i],
        #[trigger] as_ints(order)[j],
        opt,
    ) by {
        assert(order[i] != order[j]);
        assert(!key_before(keys, order[j] as int, order[i] as int, opt));
        lemma_key_before_total(keys, order[i] as int, order[j] as int, opt);
    }
}

/// Computes the stable angular order of the positions of `keys`.
fn stable_order(keys: &Vec<(i64, i64)>, opt: ArgSortOptions) -> (order: Vec<usize>)
    requires
        keys@.len() >= 2 ==> keys_admissible(keys@, opt),
    ensures
        is_stable_order(keys@, as_ints(order@), opt),
{
    let order = sort_positions(keys, 0, keys.len(), opt);
    proof {
        lemma_arrangement_is_stable_order(keys@, order@, opt);
    }
    order
}

/// Exchanges the items at the positions `i` and `j`.
fn swap_items<T>(pts: &mut [T], i: usize, j: usize)
    requires
        i < old(pts)@.len(),
        j < old(pts)@.len(),
    ensures
        final(pts)@ == old(pts)@.update(i as int, old(pts)@[j as int]).update(
            j as int,
            old(pts)@[i as int],
        ),
{
    if i < j {
        let (left, right) = pts.split_at_mut(j);
        core::mem::swap(&mut left[i], &mut right[0]);
    } else if j < i {
        let (left, right) = pts.split_at_mut(i);
        core::mem::swap(&mut left[j], &mut right[0]);
    } else {
        assert(pts@ =~= pts@.update(i as int, pts@[j as int]).update(j as int, pts@[i as int]));
    }
}

/// Whether position `c` has received its item: it is marked by pointing at
/// itself.
spec fn is_placed(order: Seq<usize>, c: int) -> bool {
    order[c] == c
}

/// The number of positions that have not received their item.
spec fn count_unplaced(order: Seq<usize>) -> nat
    decreases order.len(),
{
    if order.len() == 0 {
        0
    } else {
        count_unplaced(order.drop_last()) + if order.last() == order.len() - 1 {
            0nat
        } else {
            1nat
        }
    }
}

/// Marking one more position as placed lowers the count by one.
proof fn lemma_count_unplaced_marked(order: Seq<usize>, c: usize)
    requires
        c < order.len(),
        order[c as int] != c,
    ensures
        count_unplaced(order.update(c as int, c)) + 1 == count_unplaced(order),
    decreases order.len(),
{
    let after = order.update(c as int, c);
    if c == order.len() - 1 {
        assert(after.drop_last() =~= order.drop_last());
    } else {
        assert(after.drop_last() =~= order.drop_last().update(c as int, c));
        lemma_count_unplaced_marked(order.drop_last(), c);
    }
}

/// Whether the position that the item of `p` goes to is placed.
spec fn is_target_placed(perm: Seq<int>, order: Seq<usize>, p: int) -> bool {
    is_placed(order, perm[p])
}

/// Whether the items are on their way from the arrangement `items` to the
/// arrangement by `perm`: a placed position, other than `moving`, holds
/// its final item; any other position still holds its own and remembers
/// where its final item is. A position is placed only after the position
/// that its own item goes to, unless that is `start`.
spec fn is_partly_arranged<T>(
    items: Seq<T>,
    perm: Seq<int>,
    pts: Seq<T>,
    order: Seq<usize>,
    moving: int,
    start: int,
) -> bool {
    &&& pts.len() == items.len()
    &&& order.len() == items.len()
    &&& forall|c: int|
        0 <= c < items.len() && #[trigger] is_placed(order, c) && c != moving ==> pts[c]
            == items[perm[c]]
    &&& forall|c: int|
        0 <= c < items.len() && !#[trigger] is_placed(order, c) ==> pts[c] == items[c] && order[c]
            == perm[c]
    &&& forall|p: int|
        0 <= p < items.len() && #[trigger] is_target_placed(perm, order, p) && perm[p] != start
            ==> is_placed(order, p)
}

/// A cycle is begun by marking its first position `i`, which still holds
/// its own item.
proof fn lemma_cycle_begins<T>(
    items: Seq<T>,
    perm: Seq<int>,
    pts: Seq<T>,
    order: Seq<usize>,
    i: usize,
)
    requires
        is_index_permutation(perm, items.len()),
        is_partly_arranged(items, perm, pts, order, -1, -1),
        i < items.len(),
        !is_placed(order, i as int),
    ensures
        is_partly_arranged(items, perm, pts, order.update(i as int, i), i as int, i as int),
        0 <= perm[i as int] < items.len(),
        perm[i as int] != i,
        !is_placed(order.update(i as int, i), perm[i as int]),
{
    let n = items.len();
    let marked = order.update(i as int, i);
    assert forall|x: int| 0 <= x < n implies #[trigger] is_placed(marked, x) == (is_placed(order, x)
        || x == i) by {}
    assert forall|x: int| 0 <= x < n && #[trigger] is_placed(marked, x) && x != i implies pts[x]
        == items[perm[x]] by {
        assert(is_placed(order, x));
    }
    assert forall|x: int| 0 <= x < n && !#[trigger] is_placed(marked, x) implies pts[x] == items[x]
        && marked[x] == perm[x] by {
        assert(!is_placed(order, x));
    }
    assert forall|p: int|
        0 <= p < n && #[trigger] is_target_placed(perm, marked, p) && perm[p] != i implies is_placed(
        marked,
        p,
    ) by {
        assert(0 <= perm[p] < n);
        assert(is_target_placed(perm, order, p));
    }
    assert(0 <= perm[i as int] < n);
    assert(order[i as int] == perm[i as int]);
    if is_placed(marked, perm[i as int]) {
        assert(is_target_placed(perm, order, i as int));
    }
}

/// A cycle goes on from the placed position `cur`, which holds the item
/// of the first position `start`, to the position `nxt` of its final item:
/// the two items change places, and `nxt` is marked.
proof fn lemma_cycle_goes_on<T>(
    items: Seq<T>,
    perm: Seq<int>,
    pts: Seq<T>,
    order: Seq<usize>,
    cur: usize,
    nxt: usize,
    start: usize,
)
    requires
        is_index_permutation(perm, items.len()),
        is_partly_arranged(items, perm, pts, order, cur as int, start as int),
        cur < items.len(),
        nxt < items.len(),
        nxt == perm[cur as int],
        is_placed(order, cur as int),
        !is_placed(order, nxt as int),
        nxt != start,
    ensures
        is_partly_arranged(
            items,
            perm,
            pts.update(cur as int, pts[nxt as int]).update(nxt as int, pts[cur as int]),
            order.update(nxt as int, nxt),
            nxt as int,
            start as int,
        ),
        0 <= perm[nxt as int] < items.len(),
        perm[nxt as int] == order[nxt as int],
        perm[nxt as int] != start ==> !is_placed(order.update(nxt as int, nxt), perm[nxt as int]),
{
    let n = items.len();
    let marked = order.update(nxt as int, nxt);
    let moved = pts.update(cur as int, pts[nxt as int]).update(nxt as int, pts[cur as int]);
    assert forall|x: int| 0 <= x < n implies #[trigger] is_placed(marked, x) == (is_placed(order, x)
        || x == nxt) by {}
    assert forall|x: int| 0 <= x < n && #[trigger] is_placed(marked, x) && x != nxt implies moved[x]
        == items[perm[x]] by {
        assert(is_placed(order, x));
    }
    assert forall|x: int| 0 <= x < n && !#[trigger] is_placed(marked, x) implies moved[x]
        == items[x] && marked[x] == perm[x] by {
        assert(!is_placed(order, x));
    }
    assert forall|p: int|
        0 <= p < n && #[trigger] is_target_placed(perm, marked, p) && perm[p]
            != start implies is_placed(marked, p) by {
        assert(0 <= perm[p] < n);
        if perm[p] == nxt {
            if p != cur {
                assert(perm[p] != perm[cur as int]);
            }
        } else {
            assert(is_target_placed(perm, order, p));
        }
    }
    let after = perm[nxt as int];
    assert(0 <= after < n);
    if after != start && is_placed(marked, after) {
        if after == nxt {
            assert(order[nxt as int] == perm[nxt as int]);
        } else {
            assert(is_target_placed(perm, order, nxt as int));
        }
    }
}

/// Passes the items along the cycle of the permutation that goes through
/// the position `i`, which places every position of the cycle.
fn place_cycle<T>(
    pts: &mut [T],
    order: &mut Vec<usize>,
    i: usize,
    Ghost(items): Ghost<Seq<T>>,
    Ghost(perm): Ghost<Seq<int>>,
)
    requires
        i < items.len(),
        is_index_permutation(perm, items.len()),
        is_partly_arranged(items, perm, old(pts)@, old(order)@, -1, -1),
        !is_placed(old(order)@, i as int),
    ensures
        is_partly_arranged(items, perm, final(pts)@, final(order)@, -1, -1),
        forall|c: int|
            0 <= c < items.len() && is_placed(old(order)@, c) ==> is_placed(final(order)@, c),
        is_placed(final(order)@, i as int),
{
    let ghost n = items.len();
    let mut cur = i;
    let mut nxt = order[cur];
    proof {
        lemma_cycle_begins(items, perm, pts@, order@, i);
    }
    order[cur] = cur;
    while nxt != i
        invariant
            n == items.len(),
            i < n,
            cur < n,
            nxt < n,
            is_index_permutation(perm, n as nat),
            is_partly_arranged(items, perm, pts@, order@, cur as int, i as int),
            nxt == perm[cur as int],
            is_placed(order@, cur as int),
            is_placed(order@, i as int),
            pts@[cur as int] == items[i as int],
            nxt != i ==> !is_placed(order@, nxt as int),
            forall|c: int| 0 <= c < n && is_placed(old(order)@, c) ==> is_placed(order@, c),
        decreases count_unplaced(order@),
    {
        proof {
            lemma_cycle_goes_on(items, perm, pts@, order@, cur, nxt, i);
            lemma_count_unplaced_marked(order@, nxt);
        }
        swap_items(pts, cur, nxt);
        let after = order[nxt];
        order[nxt] = nxt;
        cur = nxt;
        nxt = after;
    }
    proof {
        assert forall|c: int| 0 <= c < n && #[trigger] is_placed(order@, c) implies pts@[c]
            == items[perm[c]] by {}
        assert forall|p: int|
            0 <= p < n && #[trigger] is_target_placed(perm, order@, p) implies is_placed(
            order@,
            p,
        ) by {
            if perm[p] == i && p != cur {
                assert(perm[p] != perm[cur as int]);
            }
        }
    }
}

/// Rearranges `pts` so that position `i` holds what position `order[i]`
/// held, by passing the items along the cycles of the permutation.
fn rearrange<T>(pts: &mut [T], order: Vec<usize>)
    requires
        is_index_permutation(as_ints(order@), old(pts)@.len()),
    ensures
        final(pts)@ == permuted(old(pts)@, as_ints(order@)),
{
    let ghost items = pts@;
    let ghost perm = as_ints(order@);
    let n = pts.len();
    let mut order = order;
    let mut i: usize = 0;
    proof {
        assert forall|p: int|
            0 <= p < n && #[trigger] is_target_placed(perm, order@, p) implies is_placed(
            order@,
            p,
        ) by {
            // A position whose item goes to a position that keeps its own is that position.
            let c = perm[p];
            assert(0 <= c < n);
            assert(perm[c] == c);
            if p != c {
                assert(perm[p] != perm[c]);
            }
        }
    }
    while i < n
        invariant
            n == items.len(),
            i <= n,
            is_index_permutation(perm, n as nat),
            is_partly_arranged(items, perm, pts@, order@, -1, -1),
            forall|c: int| 0 <= c < i ==> is_placed(order@, c),
        decreases n - i,
    {
        if order[i] != i {
            place_cycle(pts, &mut order, i, Ghost(items), Ghost(perm));
        }
        i += 1;
    }
    proof {
        assert forall|c: int| 0 <= c < n implies pts@[c] == permuted(items, perm)[c] by {
            assert(is_placed(order@, c));
        }
        assert(pts@ =~= permuted(items, perm));
    }
}

/// Tells whether some key is the origin.
fn has_origin(keys: &Vec<(i64, i64)>) -> (r: bool)
    ensures
        r <==> exists|i: int| 0 <= i < keys@.len() && is_origin(#[trigger] keys@[i]),
{
    let mut i: usize = 0;
    while i < keys.len()
        invariant
            i <= keys@.len(),
            forall|k: int| 0 <= k < i ==> !is_origin(#[trigger] keys@[k]),
        decreases keys@.len() - i,
    {
        if keys[i].0 == 0 && keys[i].1 == 0 {
            return true;
        }
        i += 1;
    }
    false
}

/// Sorts `pts` by the direction of the coordinates that `to_xy` gives,
/// counter-clockwise from the positive x-axis.
///
/// `to_xy` is applied once to every item. The items end up in the one
/// arrangement in which their coordinates ascend in the angular order of
/// `opt` and items with equal coordinates keep their relative order.
/// Where the origin is forbidden, no item of two or more may project to it.
pub fn sort_by_argument_i64<T, F: Fn(&T) -> (i64, i64)>(
    pts: &mut [T],
    to_xy: F,
    opt: ArgSortOptions,
)
    requires
        forall|i: int| 0 <= i < old(pts)@.len() ==> call_requires(to_xy, (&old(pts)@[i],)),
        opt.origin is Forbid && old(pts)@.len() >= 2 ==> forall|i: int, k: (i64, i64)|
            0 <= i < old(pts)@.len() && call_ensures(to_xy, (&old(pts)@[i],), k) ==> !is_origin(k),
    ensures
        exists|keys: Seq<(i64, i64)>| #[trigger]
            is_projection(to_xy, old(pts)@, keys) && sortable(keys, opt) && is_stable_sort_by(
                old(pts)@,
                keys,
                final(pts)@,
                opt,
            ),
{
    let keys = project_all(pts, &to_xy);
    let order = stable_order(&keys, opt);
    rearrange(pts, order);
    assert(is_stable_order(keys@, as_ints(order@), opt));
    assert(is_projection(to_xy, old(pts)@, keys@));
}

/// Sorts like [`sort_by_argument_i64`], or leaves `pts` as it is and
/// reports the error where the origin is forbidden and some item of two or
/// more projects to it.
pub fn try_sort_by_argument_i64<T, F: Fn(&T) -> (i64, i64)>(
    pts: &mut [T],
    to_xy: F,
    opt: ArgSortOptions,
) -> (r: Result<(), ArgSortError>)
    requires
        forall|i: int| 0 <= i < old(pts)@.len() ==> call_requires(to_xy, (&old(pts)@[i],)),
    ensures
        exists|keys: Seq<(i64, i64)>| #[trigger]
            is_projection(to_xy, old(pts)@, keys) && (r is Ok <==> sortable(keys, opt)) && (r is Ok
                ==> is_stable_sort_by(old(pts)@, keys, final(pts)@, opt)),
        r is Err ==> r == Err::<(), ArgSortError>(ArgSortError::OriginForbidden) && final(pts)@
            == old(pts)@,
{
    let keys = project_all(pts, &to_xy);
    let forbidden = match opt.origin {
        OriginPolicy::Forbid => keys.len() >= 2 && has_origin(&keys),
        _ => false,
    };
    if forbidden {
        assert(is_projection(to_xy, old(pts)@, keys@));
        return Err(ArgSortError::OriginForbidden);
    }
    let order = stable_order(&keys, opt);
    rearrange(pts, order);
    assert(is_stable_order(keys@, as_ints(order@), opt));
    assert(is_projection(to_xy, old(pts)@, keys@));
    Ok(())
}

/// Sorts `pts` by direction under the default options: the origin last,
/// and the nearer of two items in one direction first.
pub fn sort_by_argument_default_i64<T, F: Fn(&T) -> (i64, i64)>(pts: &mut [T], to_xy: F)
    requires
        forall|i: int| 0 <= i < old(pts)@.len() ==> call_requires(to_xy, (&old(pts)@[i],)),
    ensures
        exists|keys: Seq<(i64, i64)>| #[trigger]
            is_projection(to_xy, old(pts)@, keys) && is_stable_sort_by(
                old(pts)@,
                keys,
                final(pts)@,
                ArgSortOptions::default_spec(),
            ),
{
    sort_by_argument_i64(pts, to_xy, ArgSortOptions::default());
}

} // verus!
