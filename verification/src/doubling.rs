//! Taking many steps along a successor table by doubling.

use vstd::arithmetic::power2::{lemma_pow2_unfold, pow2};
use vstd::prelude::*;

verus! {

/// Whether every entry of `next` is a position of `next`.
pub open spec fn is_successor_table(next: Seq<usize>) -> bool {
    forall|j: int| 0 <= j < next.len() ==> #[trigger] next[j] < next.len()
}

/// The node reached from `node` after `k` steps along `next`.
pub open spec fn walk(next: Seq<usize>, node: int, k: nat) -> int
    decreases k,
{
    if k == 0 {
        node
    } else {
        next[walk(next, node, (k - 1) as nat)] as int
    }
}

/// A walk stays among the nodes.
pub proof fn lemma_walk_stays(next: Seq<usize>, node: int, k: nat)
    requires
        is_successor_table(next),
        0 <= node < next.len(),
    ensures
        0 <= walk(next, node, k) < next.len(),
    decreases k,
{
    if k > 0 {
        lemma_walk_stays(next, node, (k - 1) as nat);
    }
}

/// Walking `a` steps and then `b` steps is walking `a + b` steps.
pub proof fn lemma_walk_adds(next: Seq<usize>, node: int, a: nat, b: nat)
    ensures
        walk(next, walk(next, node, a), b) == walk(next, node, a + b),
    decreases b,
{
    if b > 0 {
        lemma_walk_adds(next, node, a, (b - 1) as nat);
    }
}

/// The number of binary digits of `k`: the least `bits` with `k < 2^bits`.
fn bit_length(k: usize) -> (bits: usize)
    ensures
        k < pow2(bits as nat),
        bits > 0 ==> pow2((bits - 1) as nat) <= k,
        bits <= k,
{
    let mut rest = k;
    let mut bits: usize = 0;
    proof {
        vstd::arithmetic::power2::lemma2_to64();
    }
    while rest > 0
        invariant
            rest * pow2(bits as nat) <= k < (rest + 1) * pow2(bits as nat),
            bits + rest <= k,
            rest == 0 ==> (bits > 0 ==> pow2((bits - 1) as nat) <= k),
            rest > 0 || bits > 0 || k == 0,
        decreases rest,
    {
        let half = rest / 2;
        proof {
            let p = pow2(bits as nat);
            lemma_pow2_unfold((bits + 1) as nat);
            assert(half * (2 * p) <= rest * p) by (nonlinear_arith)
                requires
                    2 * half <= rest,
                    p >= 0,
            ;
            assert((rest + 1) * p <= (half + 1) * (2 * p)) by (nonlinear_arith)
                requires
                    rest + 1 <= 2 * half + 2,
                    p >= 0,
            ;
            if half == 0 {
                assert(rest * p >= p) by (nonlinear_arith)
                    requires
                        rest >= 1,
                        p >= 0,
                ;
            }
        }
        rest = half;
        bits += 1;
    }
    proof {
        assert(1 * pow2(bits as nat) == pow2(bits as nat)) by (nonlinear_arith);
    }
    bits
}

/// Squares a jump table: the result jumps twice as far.
fn double_jump(jump: &Vec<usize>, next: Ghost<Seq<usize>>, level: Ghost<nat>) -> (twice: Vec<usize>)
    requires
        is_successor_table(next@),
        jump@.len() == next@.len(),
        forall|j: int| 0 <= j < jump@.len() ==> #[trigger] jump@[j] == walk(next@, j, pow2(level@)),
    ensures
        twice@.len() == next@.len(),
        forall|j: int|
            0 <= j < twice@.len() ==> #[trigger] twice@[j] == walk(next@, j, pow2(level@ + 1)),
{
    let n = jump.len();
    let mut twice: Vec<usize> = Vec::new();
    let mut j: usize = 0;
    while j < n
        invariant
            is_successor_table(next@),
            n == next@.len(),
            jump@.len() == n,
            forall|t: int| 0 <= t < n ==> #[trigger] jump@[t] == walk(next@, t, pow2(level@)),
            j <= n,
            twice@.len() == j,
            forall|t: int| 0 <= t < j ==> #[trigger] twice@[t] == walk(next@, t, pow2(level@ + 1)),
        decreases n - j,
    {
        proof {
            lemma_walk_stays(next@, j as int, pow2(level@));
            lemma_walk_adds(next@, j as int, pow2(level@), pow2(level@));
            lemma_pow2_unfold(level@ + 1);
        }
        let via = jump[j];
        twice.push(jump[via]);
        j += 1;
    }
    twice
}

/// The node reached from `node` after `k` steps along `next_nodes`, found
/// with `O(log k)` jump tables of doubling reach.
pub fn doubling(next_nodes: &Vec<usize>, node: usize, k: usize) -> (reached: usize)
    requires
        is_successor_table(next_nodes@),
        node < next_nodes@.len(),
    ensures
        reached == walk(next_nodes@, node as int, k as nat),
{
    let n = next_nodes.len();
    let bits = bit_length(k);
    let rows = if bits == 0 {
        1
    } else {
        bits
    };
    // Row `i` of the table jumps `2^i` steps.
    let mut table: Vec<Vec<usize>> = Vec::new();
    let mut first: Vec<usize> = Vec::new();
    let mut j: usize = 0;
    proof {
        vstd::arithmetic::power2::lemma2_to64();
        reveal_with_fuel(walk, 2);
    }
    while j < n
        invariant
            n == next_nodes@.len(),
            j <= n,
            first@.len() == j,
            pow2(0) == 1,
            forall|t: int| 0 <= t < j ==> #[trigger] first@[t] == walk(next_nodes@, t, pow2(0)),
        decreases n - j,
    {
        proof {
            reveal_with_fuel(walk, 2);
        }
        first.push(next_nodes[j]);
        j += 1;
    }
    table.push(first);
    let mut i: usize = 1;
    while i < rows
        invariant
            is_successor_table(next_nodes@),
            n == next_nodes@.len(),
            1 <= i <= rows,
            table@.len() == i,
            forall|r: int| 0 <= r < i ==> (#[trigger] table@[r])@.len() == n,
            forall|r: int, t: int|
                0 <= r < i && 0 <= t < n ==> #[trigger] table@[r]@[t] == walk(
                    next_nodes@,
                    t,
                    pow2(r as nat),
                ),
        decreases rows - i,
    {
        let row = double_jump(&table[i - 1], Ghost(next_nodes@), Ghost((i - 1) as nat));
        table.push(row);
        i += 1;
    }
    // Take the jumps that the binary digits of `k` ask for.
    let mut current = node;
    let mut rest = k;
    let mut level: usize = 0;
    let ghost mut walked: nat = 0;
    proof {
        assert(k * 1 + 0 == k) by (nonlinear_arith);
    }
    while rest > 0
        invariant
            is_successor_table(next_nodes@),
            n == next_nodes@.len(),
            table@.len() == rows,
            forall|r: int| 0 <= r < rows ==> (#[trigger] table@[r])@.len() == n,
            forall|r: int, t: int|
                0 <= r < rows && 0 <= t < n ==> #[trigger] table@[r]@[t] == walk(
                    next_nodes@,
                    t,
                    pow2(r as nat),
                ),
            level <= rows,
            rest < pow2((rows - level) as nat),
            k == rest * pow2(level as nat) + walked,
            current == walk(next_nodes@, node as int, walked),
            current < n,
        decreases rest,
    {
        proof {
            vstd::arithmetic::power2::lemma2_to64();
            if level == rows {
                assert(false);
            }
            lemma_pow2_unfold((rows - level) as nat);
            lemma_pow2_unfold((level + 1) as nat);
            let p = pow2(level as nat);
            assert((rest / 2) * (2 * p) + (rest % 2) * p == rest * p) by (nonlinear_arith)
                requires
                    rest == 2 * (rest / 2) + rest % 2,
            ;
        }
        if rest % 2 == 1 {
            proof {
                lemma_walk_adds(next_nodes@, node as int, walked, pow2(level as nat));
                lemma_walk_stays(next_nodes@, current as int, pow2(level as nat));
                assert(1 * pow2(level as nat) == pow2(level as nat)) by (nonlinear_arith);
                walked = walked + pow2(level as nat);
            }
            current = table[level][current];
        } else {
            proof {
                assert(0 * pow2(level as nat) == 0) by (nonlinear_arith);
            }
        }
        rest /= 2;
        level += 1;
    }
    proof {
        assert(0 * pow2(level as nat) == 0) by (nonlinear_arith);
    }
    current
}

} // verus!
