//! Cells of a grid, their four neighbours, and walks from cell to cell.

use vstd::prelude::*;

verus! {

/// Whether `c` is a cell of a grid of `h` rows and `w` columns.
pub open spec fn in_grid(h: int, w: int, c: (int, int)) -> bool {
    0 <= c.0 < h && 0 <= c.1 < w
}

/// The neighbour of `c` in direction `dir`: down, right, up, left for 0,
/// 1, 2, 3 (rows count downwards). `None` where the grid ends.
pub open spec fn neighbor_spec(h: int, w: int, c: (int, int), dir: int) -> Option<(int, int)> {
    let n = if dir == 0 {
        (c.0 + 1, c.1)
    } else if dir == 1 {
        (c.0, c.1 + 1)
    } else if dir == 2 {
        (c.0 - 1, c.1)
    } else {
        (c.0, c.1 - 1)
    };
    if 0 <= dir < 4 && in_grid(h, w, n) {
        Some(n)
    } else {
        None
    }
}

/// Whether `b` is one of the four neighbours of `a` in the grid.
pub open spec fn is_step(h: int, w: int, a: (int, int), b: (int, int)) -> bool {
    exists|dir: int| 0 <= dir < 4 && #[trigger] neighbor_spec(h, w, a, dir) == Some(b)
}

/// Whether `walk` goes from cell to neighbouring cell inside the grid.
pub open spec fn is_grid_walk(h: int, w: int, walk: Seq<(int, int)>) -> bool {
    &&& walk.len() >= 1
    &&& forall|i: int| 0 <= i < walk.len() ==> in_grid(h, w, #[trigger] walk[i])
    &&& forall|i: int| 1 <= i < walk.len() ==> is_step(h, w, walk[i - 1], #[trigger] walk[i])
}

/// Whether `walk` leads from `from` to `to`.
pub open spec fn joins(walk: Seq<(int, int)>, from: (int, int), to: (int, int)) -> bool {
    walk.len() >= 1 && walk[0] == from && walk.last() == to
}

/// A walk continued by a step is a walk.
pub proof fn lemma_walk_push(h: int, w: int, walk: Seq<(int, int)>, c: (int, int))
    requires
        is_grid_walk(h, w, walk),
        is_step(h, w, walk.last(), c),
        in_grid(h, w, c),
    ensures
        is_grid_walk(h, w, walk.push(c)),
{
    let longer = walk.push(c);
    assert forall|i: int| 1 <= i < longer.len() implies is_step(
        h,
        w,
        longer[i - 1],
        #[trigger] longer[i],
    ) by {
        if i < walk.len() {
            assert(is_step(h, w, walk[i - 1], walk[i]));
        }
    }
}

/// The neighbour of the cell `(x, y)` in direction `dir`, if the grid has one.
pub fn neighbor(h: usize, w: usize, x: usize, y: usize, dir: usize) -> (n: Option<(usize, usize)>)
    requires
        x < h,
        y < w,
        dir < 4,
    ensures
        match n {
            Some(c) => neighbor_spec(h as int, w as int, (x as int, y as int), dir as int) == Some(
                (c.0 as int, c.1 as int),
            ),
            None => neighbor_spec(h as int, w as int, (x as int, y as int), dir as int) is None,
        },
{
    if dir == 0 {
        if x + 1 < h {
            Some((x + 1, y))
        } else {
            None
        }
    } else if dir == 1 {
        if y + 1 < w {
            Some((x, y + 1))
        } else {
            None
        }
    } else if dir == 2 {
        if x >= 1 {
            Some((x - 1, y))
        } else {
            None
        }
    } else {
        if y >= 1 {
            Some((x, y - 1))
        } else {
            None
        }
    }
}

} // verus!
