//! Turning and trimming rectangular grids of characters.

use vstd::prelude::*;

verus! {

/// Whether `field` has at least one row and all its rows have the length
/// of the first.
pub open spec fn is_rectangular(field: Seq<Vec<char>>) -> bool {
    &&& field.len() >= 1
    &&& forall|i: int| 0 <= i < field.len() ==> (#[trigger] field[i])@.len() == field[0]@.len()
}

/// Whether the cell in row `i` and column `j` of `field` holds `'#'`.
pub open spec fn is_marked(field: Seq<Vec<char>>, i: int, j: int) -> bool {
    0 <= i < field.len() && 0 <= j < field[i]@.len() && field[i]@[j] == '#'
}

/// Whether `top ..= bottom` and `left ..= right` are the rows and columns
/// of the smallest rectangle that holds every `'#'` of `field`.
pub open spec fn is_bounding_box(
    field: Seq<Vec<char>>,
    top: int,
    bottom: int,
    left: int,
    right: int,
) -> bool {
    &&& forall|i: int, j: int| is_marked(field, i, j) ==> top <= i <= bottom && left <= j <= right
    &&& exists|j: int| is_marked(field, top, j)
    &&& exists|j: int| is_marked(field, bottom, j)
    &&& exists|i: int| is_marked(field, i, left)
    &&& exists|i: int| is_marked(field, i, right)
}

/// Turns the grid a quarter turn clockwise: the cell in row `i` and column
/// `j` of `n` rows moves to row `j` and column `n - 1 - i`.
pub fn rotate_grid(field: &Vec<Vec<char>>) -> (turned: Vec<Vec<char>>)
    requires
        is_rectangular(field@),
    ensures
        turned@.len() == field@[0]@.len(),
        forall|j: int| 0 <= j < turned@.len() ==> (#[trigger] turned@[j])@.len() == field@.len(),
        forall|i: int, j: int|
            0 <= i < field@.len() && 0 <= j < field@[0]@.len() ==> turned@[j]@[field@.len() - 1 - i]
                == field@[i]@[j],
{
    let n = field.len();
    let m = field[0].len();
    let mut turned: Vec<Vec<char>> = Vec::new();
    let mut j: usize = 0;
    while j < m
        invariant
            is_rectangular(field@),
            n == field@.len(),
            m == field@[0]@.len(),
            j <= m,
            turned@.len() == j,
            forall|c: int| 0 <= c < j ==> (#[trigger] turned@[c])@.len() == n,
            forall|i: int, c: int|
                0 <= i < n && 0 <= c < j ==> turned@[c]@[n - 1 - i] == field@[i]@[c],
        decreases m - j,
    {
        let mut row: Vec<char> = Vec::new();
        let mut k: usize = 0;
        while k < n
            invariant
                is_rectangular(field@),
                n == field@.len(),
                m == field@[0]@.len(),
                j < m,
                k <= n,
                row@.len() == k,
                forall|t: int| 0 <= t < k ==> row@[t] == field@[n - 1 - t]@[j as int],
            decreases n - k,
        {
            assert(field@[n - 1 - k]@.len() == m);
            row.push(field[n - 1 - k][j]);
            k += 1;
        }
        turned.push(row);
        j += 1;
    }
    turned
}

/// Whether `cut` is the part of `field` in the rows `top ..= bottom` and
/// the columns `left ..= right`.
pub open spec fn is_cut(
    field: Seq<Vec<char>>,
    cut: Seq<Vec<char>>,
    top: int,
    bottom: int,
    left: int,
    right: int,
) -> bool {
    &&& cut.len() == bottom - top + 1
    &&& forall|x: int|
        0 <= x < cut.len() ==> (#[trigger] cut[x])@ == field[top + x]@.subrange(left, right + 1)
}

/// Whether the cell `(a, b)` comes before the cell `(i, j)` when the grid
/// is read row by row.
spec fn read_before(a: int, b: int, i: int, j: int) -> bool {
    a < i || (a == i && b < j)
}

/// Cuts the grid down to the smallest rectangle that holds every `'#'`;
/// nothing is left of a grid without one.
pub fn trim_grid(field: &Vec<Vec<char>>) -> (cut: Vec<Vec<char>>)
    requires
        is_rectangular(field@),
    ensures
        (forall|i: int, j: int| !is_marked(field@, i, j)) ==> cut@.len() == 0,
        (exists|i: int, j: int| is_marked(field@, i, j)) ==> exists|
            top: int,
            bottom: int,
            left: int,
            right: int,
        |
            is_bounding_box(field@, top, bottom, left, right) && #[trigger] is_cut(
                field@,
                cut@,
                top,
                bottom,
                left,
                right,
            ),
{
    let n = field.len();
    let m = field[0].len();
    let mut top = n;
    let mut bottom: usize = 0;
    let mut left = m;
    let mut right: usize = 0;
    let ghost mut seen = false;
    // Columns and rows of marks that touch the four sides of the box.
    let ghost mut at_top = 0int;
    let ghost mut at_bottom = 0int;
    let ghost mut at_left = 0int;
    let ghost mut at_right = 0int;
    let mut i: usize = 0;
    while i < n
        invariant
            is_rectangular(field@),
            n == field@.len(),
            m == field@[0]@.len(),
            i <= n,
            !seen ==> top == n && bottom == 0 && left == m && right == 0,
            !seen ==> forall|a: int, b: int| read_before(a, b, i as int, 0) ==> !is_marked(field@, a, b),
            seen ==> is_marked(field@, top as int, at_top) && is_marked(
                field@,
                bottom as int,
                at_bottom,
            ) && is_marked(field@, at_left, left as int) && is_marked(field@, at_right, right as int),
            seen ==> forall|a: int, b: int|
                read_before(a, b, i as int, 0) && is_marked(field@, a, b) ==> top <= a <= bottom
                    && left <= b <= right,
        decreases n - i,
    {
        let mut j: usize = 0;
        assert(field@[i as int]@.len() == m);
        while j < m
            invariant
                is_rectangular(field@),
                n == field@.len(),
                m == field@[0]@.len(),
                i < n,
                j <= m,
                !seen ==> top == n && bottom == 0 && left == m && right == 0,
                !seen ==> forall|a: int, b: int|
                    read_before(a, b, i as int, j as int) ==> !is_marked(field@, a, b),
                seen ==> is_marked(field@, top as int, at_top) && is_marked(
                    field@,
                    bottom as int,
                    at_bottom,
                ) && is_marked(field@, at_left, left as int) && is_marked(
                    field@,
                    at_right,
                    right as int,
                ),
                seen ==> forall|a: int, b: int|
                    read_before(a, b, i as int, j as int) && is_marked(field@, a, b) ==> top <= a
                        <= bottom && left <= b <= right,
            decreases m - j,
        {
            assert(field@[i as int]@.len() == m);
            let c = field[i][j];
            if c == '#' {
                if i < top {
                    top = i;
                    proof {
                        at_top = j as int;
                    }
                }
                if i >= bottom {
                    bottom = i;
                    proof {
                        at_bottom = j as int;
                    }
                }
                if j < left {
                    left = j;
                    proof {
                        at_left = i as int;
                    }
                }
                if j >= right {
                    right = j;
                    proof {
                        at_right = i as int;
                    }
                }
                proof {
                    seen = true;
                }
            }
            j += 1;
        }
        proof {
            assert forall|a: int, b: int| read_before(a, b, i + 1, 0) implies read_before(
                a,
                b,
                i as int,
                m as int,
            ) || !is_marked(field@, a, b) by {
                if a == i && b >= m {
                    assert(field@[a]@.len() == m);
                }
            }
        }
        i += 1;
    }
    proof {
        assert forall|a: int, b: int| is_marked(field@, a, b) implies read_before(
            a,
            b,
            n as int,
            0,
        ) by {}
    }
    if top > bottom || left > right {
        return Vec::new();
    }
    assert(seen);
    let mut cut: Vec<Vec<char>> = Vec::new();
    let mut r = top;
    while r <= bottom
        invariant
            is_rectangular(field@),
            n == field@.len(),
            m == field@[0]@.len(),
            top <= r <= bottom + 1,
            bottom < n,
            left <= right < m,
            cut@.len() == r - top,
            forall|x: int|
                0 <= x < cut@.len() ==> (#[trigger] cut@[x])@ == field@[top + x]@.subrange(
                    left as int,
                    right + 1,
                ),
        decreases bottom + 1 - r,
    {
        let mut row: Vec<char> = Vec::new();
        let mut c = left;
        assert(field@[r as int]@.len() == m);
        while c <= right
            invariant
                n == field@.len(),
                r < n,
                field@[r as int]@.len() == m,
                left <= c <= right + 1,
                right < m,
                row@.len() == c - left,
                forall|y: int| 0 <= y < row@.len() ==> row@[y] == field@[r as int]@[left + y],
            decreases right + 1 - c,
        {
            row.push(field[r][c]);
            c += 1;
        }
        assert(row@ =~= field@[r as int]@.subrange(left as int, right + 1));
        cut.push(row);
        r += 1;
    }
    proof {
        assert(is_bounding_box(field@, top as int, bottom as int, left as int, right as int));
        assert(is_cut(field@, cut@, top as int, bottom as int, left as int, right as int));
    }
    cut
}

} // verus!
