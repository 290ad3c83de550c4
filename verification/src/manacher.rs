//! The longest palindrome around every position of a sequence, in linear
//! time.

use vstd::prelude::*;

verus! {

/// Whether the characters at distance `d` on both sides of the center `i`
/// exist and are equal.
pub open spec fn mirrored(s: Seq<char>, i: int, d: int) -> bool {
    0 <= i - d && i + d < s.len() && s[i - d] == s[i + d]
}

/// Whether `r` is the radius of the longest palindrome centered at `i`:
/// the characters at every distance below `r` are mirrored, those at
/// distance `r` are not. The palindrome has `2 * r - 1` characters.
pub open spec fn is_radius(s: Seq<char>, i: int, r: int) -> bool {
    &&& forall|d: int| 0 <= d < r ==> #[trigger] mirrored(s, i, d)
    &&& !mirrored(s, i, r)
}

/// Inside a palindrome around `i`, what is mirrored around a center on
/// one side is mirrored around the opposite center.
proof fn lemma_reflect(s: Seq<char>, i: int, j: int, k: int, d: int)
    requires
        forall|e: int| 0 <= e < j ==> #[trigger] mirrored(s, i, e),
        0 <= k,
        0 <= d,
        k + d < j,
    ensures
        mirrored(s, i - k, d) <==> mirrored(s, i + k, d),
{
    assert(mirrored(s, i, k + d));
    if k >= d {
        assert(mirrored(s, i, k - d));
    } else {
        assert(mirrored(s, i, d - k));
    }
}

/// For every position, the radius of the longest palindrome centered there.
pub fn manacher(s: &Vec<char>) -> (r: Vec<usize>)
    ensures
        r@.len() == s@.len(),
        forall|c: int| 0 <= c < s@.len() ==> is_radius(s@, c, #[trigger] r@[c] as int),
{
    let n = s.len();
    let mut r: Vec<usize> = Vec::new();
    while r.len() < n
        invariant
            r@.len() <= n,
        decreases n - r@.len(),
    {
        r.push(0);
    }
    let mut i: usize = 0;
    let mut j: usize = 0;
    while i < n
        invariant
            n == s@.len(),
            r@.len() == n,
            i <= n,
            i + j <= n,
            j <= i + 1,
            forall|c: int|
                0 <= c < i ==> is_radius(s@, c, #[trigger] r@[c] as int) && r@[c] <= c + 1,
            forall|d: int| 0 <= d < j ==> #[trigger] mirrored(s@, i as int, d),
        decreases n - i,
    {
        while i >= j && i + j < n && s[i - j] == s[i + j]
            invariant
                n == s@.len(),
                i < n,
                i + j <= n,
                j <= i + 1,
                forall|d: int| 0 <= d < j ==> #[trigger] mirrored(s@, i as int, d),
            decreases n - j,
        {
            j += 1;
        }
        assert(mirrored(s@, i as int, 0));
        assert(is_radius(s@, i as int, j as int));
        r[i] = j;
        let mut k: usize = 1;
        while i >= k && k + r[i - k] < j
            invariant
                n == s@.len(),
                r@.len() == n,
                i < n,
                i + j <= n,
                j <= i + 1,
                1 <= k <= j,
                forall|c: int|
                    0 <= c < i + k ==> is_radius(s@, c, #[trigger] r@[c] as int) && r@[c] <= c + 1,
                forall|d: int| 0 <= d < j ==> #[trigger] mirrored(s@, i as int, d),
            decreases j - k,
        {
            let near = r[i - k];
            proof {
                assert(is_radius(s@, i - k, near as int));
                assert(mirrored(s@, i - k, 0));
                assert forall|d: int| 0 <= d < near implies #[trigger] mirrored(s@, i + k, d) by {
                    lemma_reflect(s@, i as int, j as int, k as int, d);
                    assert(mirrored(s@, i - k, d));
                }
                lemma_reflect(s@, i as int, j as int, k as int, near as int);
            }
            r[i + k] = near;
            k += 1;
        }
        proof {
            assert forall|d: int| 0 <= d < j - k implies #[trigger] mirrored(s@, i + k, d) by {
                lemma_reflect(s@, i as int, j as int, k as int, d);
                assert(i >= k);
                assert(is_radius(s@, i - k, r@[i - k] as int));
                assert(mirrored(s@, i - k, d));
            }
        }
        i += k;
        j -= k;
    }
    r
}

/// [`manacher`] on `s` with a `'$'` before, between and after its
/// characters, which finds the palindromes of even length too: a radius
/// at a `'$'` belongs to a palindrome centered between two characters.
pub fn manacher_with_dummy(s: &Vec<char>) -> (r: Vec<usize>)
    requires
        2 * s@.len() + 1 <= usize::MAX,
    ensures
        r@.len() == 2 * s@.len() + 1,
        forall|c: int|
            0 <= c < r@.len() ==> is_radius(with_dummy(s@), c, #[trigger] r@[c] as int),
{
    let mut t: Vec<char> = Vec::new();
    t.push('$');
    let mut i: usize = 0;
    while i < s.len()
        invariant
            i <= s@.len(),
            t@.len() == 2 * i + 1,
            forall|c: int| 0 <= c < t@.len() ==> t@[c] == with_dummy(s@)[c],
        decreases s@.len() - i,
    {
        t.push(s[i]);
        t.push('$');
        i += 1;
    }
    assert(t@ =~= with_dummy(s@));
    manacher(&t)
}

/// `s` with a `'$'` before, between and after its characters.
pub open spec fn with_dummy(s: Seq<char>) -> Seq<char> {
    Seq::new(
        2 * s.len() + 1,
        |c: int|
            if c % 2 == 0 {
                '$'
            } else {
                s[c / 2]
            },
    )
}

} // verus!
