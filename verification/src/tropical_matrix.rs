//! Matrices over the min-plus semiring: the sum of two entries is their
//! minimum, their product is their sum, and `2^60` stands for infinity.

use vstd::prelude::*;

verus! {

/// The value that stands for infinity, `2^60`; every greater entry counts
/// as it. The value is written as a 64-bit number and needs a `usize` of
/// 64 bits.
pub const TROPICAL_MINPLUS_INF_USIZE: usize = 0x1000_0000_0000_0000u64 as usize;

/// Infinity as an unbounded integer.
pub open spec fn inf() -> int {
    TROPICAL_MINPLUS_INF_USIZE as int
}

/// The smaller of two numbers.
pub open spec fn min_of(x: int, y: int) -> int {
    if x <= y {
        x
    } else {
        y
    }
}

/// The min-plus product of two entries: their sum, or infinity if either
/// is infinite or the sum reaches it.
pub open spec fn plus(x: int, y: int) -> int {
    if x >= inf() || y >= inf() {
        inf()
    } else {
        min_of(x + y, inf())
    }
}

/// The entries of a stored matrix as unbounded integers.
pub open spec fn matrix(m: Seq<Vec<usize>>) -> Seq<Seq<int>> {
    Seq::new(m.len(), |i: int| Seq::new(m[i]@.len(), |j: int| m[i]@[j] as int))
}

/// Whether `m` has `rows` rows of `cols` entries each, none negative.
pub open spec fn has_shape(m: Seq<Seq<int>>, rows: int, cols: int) -> bool {
    &&& m.len() == rows
    &&& forall|i: int| 0 <= i < rows ==> (#[trigger] m[i]).len() == cols
    &&& forall|i: int, j: int| 0 <= i < rows && 0 <= j < cols ==> 0 <= #[trigger] m[i][j]
}

/// The least of `a[i][t] + b[t][j]` over the `t` below `upto`; infinity
/// where there is none.
pub open spec fn least_sum(a: Seq<Seq<int>>, b: Seq<Seq<int>>, i: int, j: int, upto: int) -> int
    decreases upto,
{
    if upto <= 0 {
        inf()
    } else {
        min_of(least_sum(a, b, i, j, upto - 1), plus(a[i][upto - 1], b[upto - 1][j]))
    }
}

/// The min-plus product of `a` and `b`: the entry in row `i` and column
/// `j` is the least of `a[i][t] + b[t][j]` over all `t`.
pub open spec fn product(a: Seq<Seq<int>>, b: Seq<Seq<int>>) -> Seq<Seq<int>> {
    Seq::new(
        a.len(),
        |i: int| Seq::new(b[0].len(), |j: int| least_sum(a, b, i, j, b.len() as int)),
    )
}

/// The `n × n` unit matrix: zero on the diagonal, infinity elsewhere.
pub open spec fn identity(n: nat) -> Seq<Seq<int>> {
    Seq::new(
        n,
        |i: int|
            Seq::new(
                n,
                |j: int|
                    if i == j {
                        0
                    } else {
                        inf()
                    },
            ),
    )
}

/// The product of `e` copies of `a`, begun with the unit matrix.
pub open spec fn power(a: Seq<Seq<int>>, e: nat) -> Seq<Seq<int>>
    decreases e,
{
    if e == 0 {
        identity(a.len())
    } else {
        product(power(a, (e - 1) as nat), a)
    }
}

/// `m` with every entry beyond infinity replaced by infinity.
pub open spec fn capped(m: Seq<Seq<int>>) -> Seq<Seq<int>> {
    Seq::new(m.len(), |i: int| Seq::new(m[i].len(), |j: int| min_of(m[i][j], inf())))
}

/// A least sum is never negative and never beyond infinity.
pub proof fn lemma_least_sum_bounds(
    a: Seq<Seq<int>>,
    b: Seq<Seq<int>>,
    i: int,
    j: int,
    upto: int,
)
    requires
        forall|t: int| 0 <= t < upto ==> 0 <= #[trigger] a[i][t],
        forall|t: int| 0 <= t < upto ==> 0 <= (#[trigger] b[t])[j],
    ensures
        0 <= least_sum(a, b, i, j, upto) <= inf(),
    decreases upto,
{
    if upto > 0 {
        lemma_least_sum_bounds(a, b, i, j, upto - 1);
        assert(0 <= a[i][upto - 1]);
        assert(0 <= b[upto - 1][j]);
    }
}

/// A least sum is not above any of the sums it ranges over.
proof fn lemma_least_sum_below(a: Seq<Seq<int>>, b: Seq<Seq<int>>, i: int, j: int, upto: int, t: int)
    requires
        0 <= t < upto,
    ensures
        least_sum(a, b, i, j, upto) <= plus(a[i][t], b[t][j]),
    decreases upto,
{
    if t < upto - 1 {
        lemma_least_sum_below(a, b, i, j, upto - 1, t);
    }
}

/// A least sum is infinity or one of the sums it ranges over.
proof fn lemma_least_sum_attained(a: Seq<Seq<int>>, b: Seq<Seq<int>>, i: int, j: int, upto: int) -> (t:
    int)
    ensures
        least_sum(a, b, i, j, upto) == inf() || (0 <= t < upto && least_sum(a, b, i, j, upto)
            == plus(a[i][t], b[t][j])),
    decreases upto,
{
    if upto <= 0 {
        0
    } else {
        let t = lemma_least_sum_attained(a, b, i, j, upto - 1);
        if least_sum(a, b, i, j, upto) == least_sum(a, b, i, j, upto - 1) {
            t
        } else {
            upto - 1
        }
    }
}

/// A product has the rows of its left and the columns of its right factor,
/// and its entries lie between zero and infinity.
pub proof fn lemma_product_shape(a: Seq<Seq<int>>, b: Seq<Seq<int>>, n: int, m: int, p: int)
    requires
        has_shape(a, n, m),
        has_shape(b, m, p),
        m >= 1,
    ensures
        has_shape(product(a, b), n, p),
        capped(product(a, b)) == product(a, b),
{
    let c = product(a, b);
    assert forall|i: int, j: int| 0 <= i < n && 0 <= j < p implies 0 <= #[trigger] c[i][j]
        <= inf() by {
        lemma_least_sum_bounds(a, b, i, j, m);
    }
    assert(capped(c) =~~= c);
}

/// The min-plus product is associative.
pub proof fn lemma_product_associative(
    a: Seq<Seq<int>>,
    b: Seq<Seq<int>>,
    c: Seq<Seq<int>>,
    n: int,
    m: int,
    p: int,
    q: int,
)
    requires
        has_shape(a, n, m),
        has_shape(b, m, p),
        has_shape(c, p, q),
        m >= 1,
        p >= 1,
    ensures
        product(product(a, b), c) == product(a, product(b, c)),
{
    let ab = product(a, b);
    let bc = product(b, c);
    lemma_product_shape(a, b, n, m, p);
    lemma_product_shape(b, c, m, p, q);
    let left = product(ab, c);
    let right = product(a, bc);
    assert forall|i: int, j: int| 0 <= i < n && 0 <= j < q implies #[trigger] left[i][j]
        == right[i][j] by {
        let l = least_sum(ab, c, i, j, p);
        let r = least_sum(a, bc, i, j, m);
        lemma_least_sum_bounds(ab, c, i, j, p);
        lemma_least_sum_bounds(a, bc, i, j, m);
        // The right side is a sum over some pair (s, t), which bounds the left side.
        let s = lemma_least_sum_attained(a, bc, i, j, m);
        if r != inf() {
            let t = lemma_least_sum_attained(b, c, s, j, p);
            if bc[s][j] != inf() {
                lemma_least_sum_below(a, b, i, t, m, s);
                lemma_least_sum_below(ab, c, i, j, p, t);
                lemma_least_sum_bounds(a, b, i, t, m);
                assert(0 <= a[i][s] && 0 <= b[s][t] && 0 <= c[t][j]);
            }
        }
        // And the other way round.
        let t2 = lemma_least_sum_attained(ab, c, i, j, p);
        if l != inf() {
            let s2 = lemma_least_sum_attained(a, b, i, t2, m);
            if ab[i][t2] != inf() {
                lemma_least_sum_below(b, c, s2, j, p, t2);
                lemma_least_sum_below(a, bc, i, j, m, s2);
                lemma_least_sum_bounds(b, c, s2, j, p);
                assert(0 <= a[i][s2] && 0 <= b[s2][t2] && 0 <= c[t2][j]);
            }
        }
    }
    assert(left =~~= right);
}

/// Entries beyond infinity count as infinity: capping a factor does not
/// change a product.
pub proof fn lemma_product_of_capped(a: Seq<Seq<int>>, b: Seq<Seq<int>>, n: int, m: int, p: int)
    requires
        has_shape(a, n, m),
        has_shape(b, m, p),
        m >= 1,
    ensures
        product(capped(a), b) == product(a, b),
        product(a, capped(b)) == product(a, b),
{
    assert forall|i: int, j: int| 0 <= i < n && 0 <= j < p implies least_sum(capped(a), b, i, j, m)
        == least_sum(a, b, i, j, m) && least_sum(a, capped(b), i, j, m) == least_sum(
        a,
        b,
        i,
        j,
        m,
    ) by {
        lemma_least_sum_of_capped(a, b, i, j, n, m, p, m);
    }
    assert(product(capped(a), b) =~~= product(a, b));
    assert(product(a, capped(b)) =~~= product(a, b));
}

/// [`lemma_product_of_capped`] for one least sum.
proof fn lemma_least_sum_of_capped(
    a: Seq<Seq<int>>,
    b: Seq<Seq<int>>,
    i: int,
    j: int,
    n: int,
    m: int,
    p: int,
    upto: int,
)
    requires
        has_shape(a, n, m),
        has_shape(b, m, p),
        0 <= i < n,
        0 <= j < p,
        0 <= upto <= m,
    ensures
        least_sum(capped(a), b, i, j, upto) == least_sum(a, b, i, j, upto),
        least_sum(a, capped(b), i, j, upto) == least_sum(a, b, i, j, upto),
    decreases upto,
{
    if upto > 0 {
        lemma_least_sum_of_capped(a, b, i, j, n, m, p, upto - 1);
        assert(capped(a)[i][upto - 1] == min_of(a[i][upto - 1], inf()));
        assert(capped(b)[upto - 1][j] == min_of(b[upto - 1][j], inf()));
    }
}

/// The unit matrix is neutral, up to the capping of entries beyond
/// infinity.
pub proof fn lemma_product_identity(a: Seq<Seq<int>>, n: int, m: int)
    requires
        has_shape(a, n, m),
        n >= 1,
        m >= 1,
    ensures
        product(identity(n as nat), a) == capped(a),
        product(a, identity(m as nat)) == capped(a),
{
    let left = product(identity(n as nat), a);
    let right = product(a, identity(m as nat));
    assert forall|i: int, j: int| 0 <= i < n && 0 <= j < m implies #[trigger] left[i][j]
        == capped(a)[i][j] && right[i][j] == capped(a)[i][j] by {
        lemma_least_sum_identity_left(a, i, j, n, m, n);
        lemma_least_sum_identity_right(a, i, j, n, m, m);
    }
    assert(left =~~= capped(a));
    assert(right =~~= capped(a));
}

/// A row of the unit matrix picks one entry of a column.
proof fn lemma_least_sum_identity_left(a: Seq<Seq<int>>, i: int, j: int, n: int, m: int, upto: int)
    requires
        has_shape(a, n, m),
        0 <= i < n,
        0 <= j < m,
        0 <= upto <= n,
    ensures
        least_sum(identity(n as nat), a, i, j, upto) == (if i < upto {
            min_of(a[i][j], inf())
        } else {
            inf()
        }),
    decreases upto,
{
    if upto > 0 {
        lemma_least_sum_identity_left(a, i, j, n, m, upto - 1);
        assert(0 <= a[upto - 1][j]);
        assert(identity(n as nat)[i][upto - 1] == (if i == upto - 1 {
            0
        } else {
            inf()
        }));
    }
}

/// A column of the unit matrix picks one entry of a row.
proof fn lemma_least_sum_identity_right(a: Seq<Seq<int>>, i: int, j: int, n: int, m: int, upto: int)
    requires
        has_shape(a, n, m),
        0 <= i < n,
        0 <= j < m,
        0 <= upto <= m,
    ensures
        least_sum(a, identity(m as nat), i, j, upto) == (if j < upto {
            min_of(a[i][j], inf())
        } else {
            inf()
        }),
    decreases upto,
{
    if upto > 0 {
        lemma_least_sum_identity_right(a, i, j, n, m, upto - 1);
        assert(0 <= a[i][upto - 1]);
        assert(identity(m as nat)[upto - 1][j] == (if upto - 1 == j {
            0
        } else {
            inf()
        }));
    }
}

/// A power of an `n × n` matrix is an `n × n` matrix without entries
/// beyond infinity.
pub proof fn lemma_power_shape(a: Seq<Seq<int>>, n: int, e: nat)
    requires
        has_shape(a, n, n),
        n >= 1,
    ensures
        has_shape(power(a, e), n, n),
        capped(power(a, e)) == power(a, e),
    decreases e,
{
    if e == 0 {
        assert(capped(identity(n as nat)) =~~= identity(n as nat));
    } else {
        lemma_power_shape(a, n, (e - 1) as nat);
        lemma_product_shape(power(a, (e - 1) as nat), a, n, n, n);
    }
}

/// The first power of a matrix is the matrix, capped.
pub proof fn lemma_power_one(a: Seq<Seq<int>>, n: int)
    requires
        has_shape(a, n, n),
        n >= 1,
    ensures
        power(a, 1) == capped(a),
{
    assert(power(a, 1) == product(power(a, 0), a));
    lemma_product_identity(a, n, n);
}

/// Powers multiply as their exponents add.
pub proof fn lemma_power_adds(a: Seq<Seq<int>>, n: int, j: nat, k: nat)
    requires
        has_shape(a, n, n),
        n >= 1,
    ensures
        power(a, j + k) == product(power(a, j), power(a, k)),
    decreases k,
{
    lemma_power_shape(a, n, j);
    if k == 0 {
        lemma_product_identity(power(a, j), n, n);
    } else {
        let k1 = (k - 1) as nat;
        lemma_power_adds(a, n, j, k1);
        lemma_power_shape(a, n, k1);
        lemma_product_associative(power(a, j), power(a, k1), a, n, n, n, n);
        assert(power(a, j + k) == product(power(a, (j + k1) as nat), a));
    }
}

/// A power of the square is the power with twice the exponent.
pub proof fn lemma_power_of_square(a: Seq<Seq<int>>, n: int, k: nat)
    requires
        has_shape(a, n, n),
        n >= 1,
    ensures
        power(product(a, a), k) == power(a, 2 * k),
    decreases k,
{
    let square = product(a, a);
    lemma_product_shape(a, a, n, n, n);
    if k > 0 {
        let k1 = (k - 1) as nat;
        lemma_power_of_square(a, n, k1);
        // The square is the second power.
        lemma_power_one(a, n);
        lemma_product_of_capped(a, a, n, n, n);
        assert(power(a, 2) == product(power(a, 1), a));
        lemma_power_adds(a, n, 2 * k1, 2);
        assert(power(square, k) == product(power(square, k1), square));
    }
}

/// A row of `len` infinities.
fn infinite_row(len: usize) -> (row: Vec<usize>)
    ensures
        row@.len() == len,
        forall|k: int| 0 <= k < len ==> row@[k] == inf(),
{
    let mut row: Vec<usize> = Vec::new();
    while row.len() < len
        invariant
            row@.len() <= len,
            forall|k: int| 0 <= k < row@.len() ==> row@[k] == inf(),
        decreases len - row@.len(),
    {
        row.push(TROPICAL_MINPLUS_INF_USIZE);
    }
    row
}

/// The min-plus product `c` of an `n × m` matrix `a` and an `m × p`
/// matrix `b`: `c[i][j]` is the least of `a[i][t] + b[t][j]` over `t`.
pub fn tropical_min_plus_mul(a: &[Vec<usize>], b: &[Vec<usize>]) -> (c: Vec<Vec<usize>>)
    requires
        a@.len() >= 1,
        b@.len() >= 1,
        has_shape(matrix(a@), a@.len() as int, b@.len() as int),
        has_shape(matrix(b@), b@.len() as int, b@[0]@.len() as int),
    ensures
        matrix(c@) == product(matrix(a@), matrix(b@)),
{
    let n = a.len();
    let m = b.len();
    let p = b[0].len();
    let ghost ma = matrix(a@);
    let ghost mb = matrix(b@);
    proof {
        assert(mb[0].len() == p);
    }
    let mut ret: Vec<Vec<usize>> = Vec::new();
    let mut i: usize = 0;
    while i < n
        invariant
            n == a@.len(),
            m == b@.len(),
            m >= 1,
            p == b@[0]@.len(),
            ma == matrix(a@),
            mb == matrix(b@),
            has_shape(ma, n as int, m as int),
            has_shape(mb, m as int, p as int),
            i <= n,
            ret@.len() == i,
            forall|r: int| 0 <= r < i ==> (#[trigger] ret@[r])@.len() == p,
            forall|r: int, j: int|
                0 <= r < i && 0 <= j < p ==> #[trigger] ret@[r]@[j] == least_sum(
                    ma,
                    mb,
                    r,
                    j,
                    m as int,
                ),
        decreases n - i,
    {
        let mut row = infinite_row(p);
        let mut t: usize = 0;
        while t < m
            invariant
                n == a@.len(),
                m == b@.len(),
                p == b@[0]@.len(),
                ma == matrix(a@),
                mb == matrix(b@),
                has_shape(ma, n as int, m as int),
                has_shape(mb, m as int, p as int),
                i < n,
                t <= m,
                row@.len() == p,
                forall|j: int| 0 <= j < p ==> #[trigger] row@[j] == least_sum(ma, mb, i as int, j, t as int),
            decreases m - t,
        {
            assert(ma[i as int].len() == m);
            assert(mb[t as int].len() == p);
            let x = a[i][t];
            assert(x == ma[i as int][t as int]);
            if x < TROPICAL_MINPLUS_INF_USIZE {
                let mut j: usize = 0;
                while j < p
                    invariant
                        n == a@.len(),
                        m == b@.len(),
                        ma == matrix(a@),
                        mb == matrix(b@),
                        i < n,
                        t < m,
                        j <= p,
                        a@[i as int]@.len() == m,
                        b@[t as int]@.len() == p,
                        x == ma[i as int][t as int],
                        x < inf(),
                        row@.len() == p,
                        forall|k: int|
                            0 <= k < j ==> #[trigger] row@[k] == least_sum(ma, mb, i as int, k, t + 1),
                        forall|k: int|
                            j <= k < p ==> #[trigger] row@[k] == least_sum(ma, mb, i as int, k, t as int),
                    decreases p - j,
                {
                    let y = b[t][j];
                    assert(y == mb[t as int][j as int]);
                    if y < TROPICAL_MINPLUS_INF_USIZE {
                        let sum = x.saturating_add(y);
                        let v = if sum < TROPICAL_MINPLUS_INF_USIZE {
                            sum
                        } else {
                            TROPICAL_MINPLUS_INF_USIZE
                        };
                        if v < row[j] {
                            row[j] = v;
                        }
                    } else {
                        proof {
                            lemma_least_sum_upper(ma, mb, i as int, j as int, t as int);
                        }
                    }
                    j += 1;
                }
            } else {
                proof {
                    assert forall|j: int| 0 <= j < p implies #[trigger] row@[j] == least_sum(
                        ma,
                        mb,
                        i as int,
                        j,
                        t + 1,
                    ) by {
                        lemma_least_sum_upper(ma, mb, i as int, j, t as int);
                    }
                }
            }
            t += 1;
        }
        ret.push(row);
        i += 1;
    }
    proof {
        assert(matrix(ret@) =~~= product(ma, mb));
    }
    ret
}

/// A least sum is never beyond infinity.
proof fn lemma_least_sum_upper(a: Seq<Seq<int>>, b: Seq<Seq<int>>, i: int, j: int, upto: int)
    ensures
        least_sum(a, b, i, j, upto) <= inf(),
    decreases upto,
{
    if upto > 0 {
        lemma_least_sum_upper(a, b, i, j, upto - 1);
    }
}

/// The `n × n` unit matrix of the min-plus product.
pub fn tropical_min_plus_identity(n: usize) -> (id: Vec<Vec<usize>>)
    ensures
        matrix(id@) == identity(n as nat),
{
    let mut id: Vec<Vec<usize>> = Vec::new();
    let mut i: usize = 0;
    while i < n
        invariant
            i <= n,
            id@.len() == i,
            forall|r: int| 0 <= r < i ==> (#[trigger] id@[r])@.len() == n,
            forall|r: int, j: int|
                0 <= r < i && 0 <= j < n ==> #[trigger] id@[r]@[j] == (if r == j {
                    0
                } else {
                    inf()
                }),
        decreases n - i,
    {
        let mut row = infinite_row(n);
        row[i] = 0;
        id.push(row);
        i += 1;
    }
    proof {
        assert(matrix(id@) =~~= identity(n as nat));
    }
    id
}

/// The product of `exp` copies of the square matrix `a`, by repeated
/// squaring; the unit matrix for `exp == 0`.
pub fn tropical_min_plus_pow(a: Vec<Vec<usize>>, exp: usize) -> (r: Vec<Vec<usize>>)
    requires
        has_shape(matrix(a@), a@.len() as int, a@.len() as int),
        exp > 0 ==> a@.len() >= 1,
    ensures
        matrix(r@) == power(matrix(a@), exp as nat),
{
    let n = a.len();
    let ghost whole = matrix(a@);
    let mut a = a;
    let mut exp = exp;
    let ghost total = exp as nat;
    let mut res = tropical_min_plus_identity(n);
    proof {
        assert(capped(identity(n as nat)) =~~= identity(n as nat));
        if n >= 1 {
            lemma_power_shape(whole, n as int, total);
            lemma_product_identity(power(whole, total), n as int, n as int);
        }
    }
    while exp > 0
        invariant
            n >= 1 || exp == 0,
            n == a@.len(),
            has_shape(matrix(a@), n as int, n as int),
            has_shape(matrix(res@), n as int, n as int),
            capped(matrix(res@)) == matrix(res@),
            n >= 1 ==> power(whole, total) == product(matrix(res@), power(matrix(a@), exp as nat)),
            n == 0 ==> matrix(res@) == power(whole, total),
        decreases exp,
    {
        let ghost base = matrix(a@);
        let ghost acc = matrix(res@);
        let ghost half = (exp / 2) as nat;
        let odd = exp % 2 == 1;
        proof {
            lemma_power_of_square(base, n as int, half);
            lemma_power_shape(base, n as int, 2 * half);
            if odd {
                lemma_product_associative(acc, base, power(base, 2 * half), n as int, n as int, n as int, n as int);
                lemma_power_one(base, n as int);
                lemma_product_of_capped(base, power(base, 2 * half), n as int, n as int, n as int);
                lemma_power_adds(base, n as int, 1, 2 * half);
                lemma_product_shape(acc, base, n as int, n as int, n as int);
            }
            lemma_product_shape(base, base, n as int, n as int, n as int);
        }
        if odd {
            res = tropical_min_plus_mul(res.as_slice(), a.as_slice());
        }
        a = tropical_min_plus_mul(a.as_slice(), a.as_slice());
        exp = exp / 2;
    }
    proof {
        if n >= 1 {
            lemma_product_identity(matrix(res@), n as int, n as int);
        }
    }
    res
}

} // verus!
