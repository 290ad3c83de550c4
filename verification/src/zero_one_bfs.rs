//! Cheapest walks in a grid where entering a wall costs one and entering
//! any other cell costs nothing.

use crate::grid::{in_grid, is_grid_walk, is_step, joins, lemma_walk_push, neighbor, neighbor_spec};
use std::collections::VecDeque;
use vstd::prelude::*;

verus! {

/// The cost that stands for "not reached": `2^60`. The value is written as
/// a 64-bit number and needs a `usize` of 64 bits.
pub const ZERO_ONE_BFS_INF: usize = 0x1000_0000_0000_0000u64 as usize;

/// The cost of entering the cell `c`: one for a wall `'#'`, else nothing.
pub open spec fn entry_cost(field: Seq<Vec<char>>, c: (int, int)) -> int {
    if field[c.0]@[c.1] == '#' {
        1
    } else {
        0
    }
}

/// The cost of a walk: the number of times it enters a wall. The cell it
/// starts on is not entered.
pub open spec fn walk_cost(field: Seq<Vec<char>>, walk: Seq<(int, int)>) -> int
    decreases walk.len(),
{
    if walk.len() <= 1 {
        0
    } else {
        walk_cost(field, walk.drop_last()) + entry_cost(field, walk.last())
    }
}

/// The entry of `dist` for the cell `c`.
pub open spec fn at(dist: Seq<Vec<usize>>, c: (int, int)) -> int {
    dist[c.0]@[c.1] as int
}

/// Whether `dist` has `h` rows of `w` entries, none beyond the cost that
/// stands for "not reached".
pub open spec fn is_cost_table(dist: Seq<Vec<usize>>, h: int, w: int) -> bool {
    &&& dist.len() == h
    &&& forall|i: int| 0 <= i < h ==> (#[trigger] dist[i])@.len() == w
    &&& forall|i: int, j: int|
        0 <= i < h && 0 <= j < w ==> #[trigger] at(dist, (i, j)) <= ZERO_ONE_BFS_INF
}

/// Whether `cost` is the least cost of a walk from `start` to `c`, as far
/// as costs are told apart: below [`ZERO_ONE_BFS_INF`] it is the cost of
/// some walk, and no walk is cheaper than it.
pub open spec fn is_least_cost(
    field: Seq<Vec<char>>,
    h: int,
    w: int,
    start: (int, int),
    c: (int, int),
    cost: int,
) -> bool {
    &&& forall|walk: Seq<(int, int)>|
        is_grid_walk(h, w, walk) && joins(walk, start, c) ==> cost <= #[trigger] walk_cost(
            field,
            walk,
        )
    &&& cost == ZERO_ONE_BFS_INF || exists|walk: Seq<(int, int)>|
        is_grid_walk(h, w, walk) && joins(walk, start, c) && #[trigger] walk_cost(field, walk)
            == cost
}

/// The sum of the entries of a row.
spec fn row_total(row: Seq<usize>) -> nat
    decreases row.len(),
{
    if row.len() == 0 {
        0
    } else {
        row_total(row.drop_last()) + row.last() as nat
    }
}

/// The sum of all entries of a table.
spec fn total(dist: Seq<Vec<usize>>) -> nat
    decreases dist.len(),
{
    if dist.len() == 0 {
        0
    } else {
        total(dist.drop_last()) + row_total(dist.last()@)
    }
}

/// Lowering one entry of a row lowers its sum.
proof fn lemma_row_total_lowered(row: Seq<usize>, j: int, v: usize)
    requires
        0 <= j < row.len(),
        v < row[j],
    ensures
        row_total(row.update(j, v)) < row_total(row),
    decreases row.len(),
{
    let after = row.update(j, v);
    if j == row.len() - 1 {
        assert(after.drop_last() =~= row.drop_last());
    } else {
        assert(after.drop_last() =~= row.drop_last().update(j, v));
        lemma_row_total_lowered(row.drop_last(), j, v);
    }
}

/// Lowering one entry of a table lowers its sum.
proof fn lemma_total_lowered(before: Seq<Vec<usize>>, after: Seq<Vec<usize>>, i: int, j: int, v: usize)
    requires
        0 <= i < before.len(),
        0 <= j < before[i]@.len(),
        v < before[i]@[j],
        after.len() == before.len(),
        after[i]@ == before[i]@.update(j, v),
        forall|k: int| 0 <= k < before.len() && k != i ==> after[k]@ == before[k]@,
    ensures
        total(after) < total(before),
    decreases before.len(),
{
    let last = before.len() - 1;
    if i == last {
        lemma_row_total_lowered(before[i]@, j, v);
        lemma_total_same(before.drop_last(), after.drop_last());
    } else {
        lemma_total_lowered(before.drop_last(), after.drop_last(), i, j, v);
    }
}

/// Tables with the same rows have the same sum.
proof fn lemma_total_same(a: Seq<Vec<usize>>, b: Seq<Vec<usize>>)
    requires
        a.len() == b.len(),
        forall|k: int| 0 <= k < a.len() ==> a[k]@ == b[k]@,
    ensures
        total(a) == total(b),
    decreases a.len(),
{
    if a.len() > 0 {
        lemma_total_same(a.drop_last(), b.drop_last());
    }
}

/// Whether no neighbour of `c` can be reached more cheaply through `c`.
spec fn is_settled(field: Seq<Vec<char>>, dist: Seq<Vec<usize>>, h: int, w: int, c: (int, int)) -> bool {
    forall|dir: int|
        0 <= dir < 4 ==> (#[trigger] neighbor_spec(h, w, c, dir) matches Some(v) ==> at(dist, v)
            <= at(dist, c) + entry_cost(field, v))
}

/// Whether every cost below [`ZERO_ONE_BFS_INF`] is the cost of some walk
/// from `start`.
spec fn is_sound(field: Seq<Vec<char>>, dist: Seq<Vec<usize>>, h: int, w: int, start: (int, int)) -> bool {
    forall|i: int, j: int|
        0 <= i < h && 0 <= j < w && #[trigger] at(dist, (i, j)) < ZERO_ONE_BFS_INF ==> exists|
            walk: Seq<(int, int)>,
        |
            is_grid_walk(h, w, walk) && joins(walk, start, (i, j)) && #[trigger] walk_cost(
                field,
                walk,
            ) == at(dist, (i, j))
}

/// Whether every reached cell that does not wait in `queue`, other than
/// `except`, is settled.
spec fn idle_cells_settled(
    field: Seq<Vec<char>>,
    dist: Seq<Vec<usize>>,
    h: int,
    w: int,
    queue: Seq<(usize, usize)>,
    except: Option<(int, int)>,
) -> bool {
    forall|i: int, j: int|
        0 <= i < h && 0 <= j < w && at(dist, (i, j)) < ZERO_ONE_BFS_INF && !queue.contains(
            (i as usize, j as usize),
        ) && except != Some((i, j)) ==> #[trigger] is_settled(field, dist, h, w, (i, j))
}

/// Where every reached cell is settled, no walk from `start` is cheaper
/// than the cost found for its end.
proof fn lemma_no_cheaper_walk(
    field: Seq<Vec<char>>,
    dist: Seq<Vec<usize>>,
    h: int,
    w: int,
    start: (int, int),
    walk: Seq<(int, int)>,
)
    requires
        is_cost_table(dist, h, w),
        is_grid_walk(h, w, walk),
        walk[0] == start,
        at(dist, start) == 0,
        idle_cells_settled(field, dist, h, w, Seq::empty(), None),
    ensures
        at(dist, walk.last()) <= walk_cost(field, walk),
    decreases walk.len(),
{
    if walk.len() > 1 {
        let front = walk.drop_last();
        assert(is_grid_walk(h, w, front)) by {
            assert forall|i: int| 1 <= i < front.len() implies is_step(
                h,
                w,
                front[i - 1],
                #[trigger] front[i],
            ) by {
                assert(is_step(h, w, walk[i - 1], walk[i]));
            }
            assert forall|i: int| 0 <= i < front.len() implies in_grid(h, w, #[trigger] front[i]) by {
                assert(in_grid(h, w, walk[i]));
            }
        }
        lemma_no_cheaper_walk(field, dist, h, w, start, front);
        let u = front.last();
        let v = walk.last();
        assert(u == walk[walk.len() - 2]);
        assert(in_grid(h, w, walk[walk.len() - 2]));
        assert(in_grid(h, w, walk[walk.len() - 1]));
        assert(is_step(h, w, walk[walk.len() - 2], walk[walk.len() - 1]));
        let dir = choose|dir: int| 0 <= dir < 4 && #[trigger] neighbor_spec(h, w, u, dir) == Some(v);
        assert(at(dist, v) <= ZERO_ONE_BFS_INF);
        if at(dist, u) < ZERO_ONE_BFS_INF {
            assert(!Seq::<(usize, usize)>::empty().contains((u.0 as usize, u.1 as usize)));
            assert(is_settled(field, dist, h, w, u));
            assert(neighbor_spec(h, w, u, dir) == Some(v));
        }
    }
}

/// A table of `h` rows of `w` entries, all [`ZERO_ONE_BFS_INF`].
fn unreached_table(h: usize, w: usize) -> (dist: Vec<Vec<usize>>)
    ensures
        is_cost_table(dist@, h as int, w as int),
        forall|i: int, j: int|
            0 <= i < h && 0 <= j < w ==> #[trigger] at(dist@, (i, j)) == ZERO_ONE_BFS_INF,
{
    let mut dist: Vec<Vec<usize>> = Vec::new();
    while dist.len() < h
        invariant
            dist@.len() <= h,
            forall|i: int| 0 <= i < dist@.len() ==> (#[trigger] dist@[i])@.len() == w,
            forall|i: int, j: int|
                0 <= i < dist@.len() && 0 <= j < w ==> #[trigger] at(dist@, (i, j))
                    == ZERO_ONE_BFS_INF,
        decreases h - dist@.len(),
    {
        let mut row: Vec<usize> = Vec::new();
        while row.len() < w
            invariant
                row@.len() <= w,
                forall|j: int| 0 <= j < row@.len() ==> row@[j] == ZERO_ONE_BFS_INF,
            decreases w - row@.len(),
        {
            row.push(ZERO_ONE_BFS_INF);
        }
        let ghost before = dist@;
        dist.push(row);
        proof {
            assert forall|i: int, j: int|
                0 <= i < dist@.len() && 0 <= j < w implies #[trigger] at(dist@, (i, j))
                == ZERO_ONE_BFS_INF by {
                if i < before.len() {
                    assert(dist@[i] == before[i]);
                    assert(at(before, (i, j)) == ZERO_ONE_BFS_INF);
                }
            }
        }
    }
    dist
}

/// The least number of walls `'#'` that a walk from `start` to each cell
/// of the first `h` rows and `w` columns of `field` has to enter.
pub fn zero_one_bfs(field: &[Vec<char>], h: usize, w: usize, start: (usize, usize)) -> (dist: Vec<
    Vec<usize>,
>)
    requires
        h <= field@.len(),
        forall|i: int| 0 <= i < h ==> w <= (#[trigger] field@[i])@.len(),
        start.0 < h,
        start.1 < w,
    ensures
        is_cost_table(dist@, h as int, w as int),
        forall|i: int, j: int|
            0 <= i < h && 0 <= j < w ==> is_least_cost(
                field@,
                h as int,
                w as int,
                (start.0 as int, start.1 as int),
                (i, j),
                #[trigger] at(dist@, (i, j)),
            ),
{
    let ghost origin = (start.0 as int, start.1 as int);
    let ghost (hh, ww) = (h as int, w as int);
    let mut dist = unreached_table(h, w);
    let mut deque: VecDeque<(usize, usize)> = VecDeque::new();
    let ghost blank = dist@;
    dist[start.0][start.1] = 0;
    deque.push_front(start);
    proof {
        assert forall|i: int, j: int| 0 <= i < h && 0 <= j < w implies #[trigger] at(dist@, (i, j))
            == (if (i, j) == origin {
            0
        } else {
            ZERO_ONE_BFS_INF as int
        }) by {
            assert(at(blank, (i, j)) == ZERO_ONE_BFS_INF);
        }
        let alone = seq![origin];
        assert(is_grid_walk(hh, ww, alone));
        assert(joins(alone, origin, origin));
        assert(walk_cost(field@, alone) == 0);
        assert(deque@[0] == start);
        assert(deque@.contains(start));
        assert forall|i: int, j: int|
            0 <= i < h && 0 <= j < w && #[trigger] at(dist@, (i, j))
                < ZERO_ONE_BFS_INF implies (i, j) == origin by {}
    }
    while deque.len() > 0
        invariant
            hh == h,
            ww == w,
            origin == (start.0 as int, start.1 as int),
            h <= field@.len(),
            forall|i: int| 0 <= i < h ==> w <= (#[trigger] field@[i])@.len(),
            in_grid(hh, ww, origin),
            is_cost_table(dist@, hh, ww),
            at(dist@, origin) == 0,
            is_sound(field@, dist@, hh, ww, origin),
            idle_cells_settled(field@, dist@, hh, ww, deque@, None),
            forall|k: int| 0 <= k < deque@.len() ==> (#[trigger] deque@[k]).0 < h && deque@[k].1 < w,
        decreases total(dist@), deque@.len(),
    {
        let ghost total_before = total(dist@);
        let ghost waiting_before = deque@;
        let cell = deque.pop_front().unwrap();
        let (x, y) = cell;
        let ghost u = (x as int, y as int);
        let ghost waiting = deque@;
        proof {
            assert(cell == waiting_before[0]);
            assert(waiting =~= waiting_before.drop_first());
            assert forall|i: int, j: int|
                0 <= i < hh && 0 <= j < ww && at(dist@, (i, j)) < ZERO_ONE_BFS_INF
                    && !waiting.contains((i as usize, j as usize)) && Some(u) != Some(
                    (i, j),
                ) implies #[trigger] is_settled(field@, dist@, hh, ww, (i, j)) by {
                if waiting_before.contains((i as usize, j as usize)) {
                    let k = choose|k: int|
                        0 <= k < waiting_before.len() && waiting_before[k] == (
                            i as usize,
                            j as usize,
                        );
                    assert(waiting[k - 1] == (i as usize, j as usize));
                }
            }
            assert forall|k: int| 0 <= k < waiting.len() implies (#[trigger] waiting[k]).0 < h
                && waiting[k].1 < w by {
                assert(waiting[k] == waiting_before[k + 1]);
            }
        }
        let here = dist[x][y];
        let mut dir: usize = 0;
        while dir < 4
            invariant
                hh == h,
                ww == w,
                u == (x as int, y as int),
                origin == (start.0 as int, start.1 as int),
                h <= field@.len(),
                forall|i: int| 0 <= i < h ==> w <= (#[trigger] field@[i])@.len(),
                in_grid(hh, ww, origin),
                in_grid(hh, ww, u),
                x < h,
                y < w,
                dir <= 4,
                is_cost_table(dist@, hh, ww),
                at(dist@, origin) == 0,
                at(dist@, u) == here,
                is_sound(field@, dist@, hh, ww, origin),
                idle_cells_settled(field@, dist@, hh, ww, deque@, Some(u)),
                forall|k: int| 0 <= k < deque@.len() ==> (#[trigger] deque@[k]).0 < h && deque@[k].1 < w,
                forall|d: int|
                    0 <= d < dir ==> (#[trigger] neighbor_spec(hh, ww, u, d) matches Some(v) ==> at(
                        dist@,
                        v,
                    ) <= here + entry_cost(field@, v)),
                total(dist@) <= total_before,
                total(dist@) == total_before ==> deque@ == waiting,
            decreases 4 - dir,
        {
            match neighbor(h, w, x, y, dir) {
                Some((nx, ny)) => {
                    let ghost v = (nx as int, ny as int);
                    let ghost old_dist = dist@;
                    let ghost old_queue = deque@;
                    assert(neighbor_spec(hh, ww, u, dir as int) == Some(v));
                    assert(at(dist@, v) <= ZERO_ONE_BFS_INF);
                    let wall = field[nx][ny] == '#';
                    let relax = if wall {
                        here < dist[nx][ny] && here + 1 < dist[nx][ny]
                    } else {
                        here < dist[nx][ny]
                    };
                    if relax {
                        let cost = if wall {
                            here + 1
                        } else {
                            here
                        };
                        proof {
                            // A walk to `u`, continued to `v`.
                            assert(at(dist@, u) < ZERO_ONE_BFS_INF);
                            let walk = choose|walk: Seq<(int, int)>|
                                is_grid_walk(hh, ww, walk) && joins(walk, origin, u)
                                    && #[trigger] walk_cost(field@, walk) == at(dist@, u);
                            lemma_walk_push(hh, ww, walk, v);
                            let longer = walk.push(v);
                            assert(longer.drop_last() =~= walk);
                            assert(joins(longer, origin, v));
                            assert(walk_cost(field@, longer) == cost);
                        }
                        dist[nx][ny] = cost;
                        if wall {
                            deque.push_back((nx, ny));
                        } else {
                            deque.push_front((nx, ny));
                        }
                        proof {
                            lemma_total_lowered(old_dist, dist@, nx as int, ny as int, cost);
                            assert(deque@.contains((nx, ny))) by {
                                if wall {
                                    assert(deque@[deque@.len() - 1] == (nx, ny));
                                } else {
                                    assert(deque@[0] == (nx, ny));
                                }
                            }
                            assert forall|i: int, j: int|
                                0 <= i < hh && 0 <= j < ww implies #[trigger] at(dist@, (i, j)) == (if (
                                i,
                                j,
                            ) == v {
                                cost as int
                            } else {
                                at(old_dist, (i, j))
                            }) by {}
                            assert forall|c: (usize, usize)|
                                old_queue.contains(c) implies deque@.contains(c) by {
                                let k = choose|k: int| 0 <= k < old_queue.len() && old_queue[k] == c;
                                if wall {
                                    assert(deque@[k] == c);
                                } else {
                                    assert(deque@[k + 1] == c);
                                }
                            }
                            assert forall|k: int| 0 <= k < deque@.len() implies (#[trigger] deque@[k]).0
                                < h && deque@[k].1 < w by {
                                if wall {
                                    if k < old_queue.len() {
                                        assert(deque@[k] == old_queue[k]);
                                    }
                                } else {
                                    if k > 0 {
                                        assert(deque@[k] == old_queue[k - 1]);
                                    }
                                }
                            }
                            assert forall|i: int, j: int|
                                0 <= i < hh && 0 <= j < ww && at(dist@, (i, j)) < ZERO_ONE_BFS_INF
                                    && !deque@.contains((i as usize, j as usize)) && Some(u)
                                    != Some((i, j)) implies #[trigger] is_settled(
                                field@,
                                dist@,
                                hh,
                                ww,
                                (i, j),
                            ) by {
                                assert((i, j) != v);
                                assert(!old_queue.contains((i as usize, j as usize)));
                                assert(is_settled(field@, old_dist, hh, ww, (i, j)));
                                assert forall|d: int| 0 <= d < 4 implies (#[trigger] neighbor_spec(
                                    hh,
                                    ww,
                                    (i, j),
                                    d,
                                ) matches Some(t) ==> at(dist@, t) <= at(dist@, (i, j)) + entry_cost(
                                    field@,
                                    t,
                                )) by {
                                    if let Some(t) = neighbor_spec(hh, ww, (i, j), d) {
                                        assert(at(old_dist, t) <= at(old_dist, (i, j)) + entry_cost(
                                            field@,
                                            t,
                                        ));
                                        assert(in_grid(hh, ww, t));
                                    }
                                }
                            }
                            assert forall|i: int, j: int|
                                0 <= i < hh && 0 <= j < ww && #[trigger] at(dist@, (i, j))
                                    < ZERO_ONE_BFS_INF implies exists|walk: Seq<(int, int)>|
                                is_grid_walk(hh, ww, walk) && joins(walk, origin, (i, j))
                                    && #[trigger] walk_cost(field@, walk) == at(dist@, (i, j)) by {
                                if (i, j) != v {
                                    assert(at(old_dist, (i, j)) < ZERO_ONE_BFS_INF);
                                }
                            }
                            assert forall|d: int| 0 <= d < dir + 1 implies (#[trigger] neighbor_spec(
                                hh,
                                ww,
                                u,
                                d,
                            ) matches Some(t) ==> at(dist@, t) <= here + entry_cost(field@, t)) by {
                                if let Some(t) = neighbor_spec(hh, ww, u, d) {
                                    assert(in_grid(hh, ww, t));
                                    if d < dir {
                                        assert(at(old_dist, t) <= here + entry_cost(field@, t));
                                    }
                                }
                            }
                        }
                    }
                },
                None => {},
            }
            dir += 1;
        }
        proof {
            assert(is_settled(field@, dist@, hh, ww, u));
        }
    }
    proof {
        assert(deque@ =~= Seq::<(usize, usize)>::empty());
        assert forall|i: int, j: int| 0 <= i < h && 0 <= j < w implies is_least_cost(
            field@,
            hh,
            ww,
            origin,
            (i, j),
            #[trigger] at(dist@, (i, j)),
        ) by {
            assert forall|walk: Seq<(int, int)>|
                is_grid_walk(hh, ww, walk) && joins(walk, origin, (i, j)) implies at(dist@, (i, j))
                <= #[trigger] walk_cost(field@, walk) by {
                lemma_no_cheaper_walk(field@, dist@, hh, ww, origin, walk);
            }
        }
    }
    dist
}

} // verus!
