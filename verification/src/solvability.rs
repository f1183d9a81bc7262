//! Which boards can be solved at all.
//!
//! A move never changes whether the number of inversions among the tiles is
//! even or odd. The solved board has none, so a board with an odd number of
//! inversions cannot be solved.

use vstd::prelude::*;
use crate::board::Direction;
use crate::board::cell_of;
use crate::board::destination;
use crate::board::goal_grid;
use crate::board::is_grid;
use crate::board::lemma_slide;
use crate::board::replay;
use crate::board::slide;
use crate::board::solves;
use crate::board::unsolvable;

verus! {

/// 1 if `first` and `second` are tiles, met in this order when reading the
/// grid, and `first` is the larger one; 0 otherwise. The blank is no tile.
pub open spec fn inverted(first: u8, second: u8) -> int {
    if first != 0 && second != 0 && first > second {
        1
    } else {
        0
    }
}

/// Among the first `i` cells, how many hold a tile larger than `tile`.
pub open spec fn larger_before(g: Seq<u8>, tile: u8, i: int) -> int
    decreases i,
{
    if i <= 0 {
        0
    } else {
        larger_before(g, tile, i - 1) + inverted(g[i - 1], tile)
    }
}

/// Number of pairs of tiles within the first `n` cells that stand in the
/// wrong order.
pub open spec fn inversions_upto(g: Seq<u8>, n: int) -> int
    decreases n,
{
    if n <= 0 {
        0
    } else {
        inversions_upto(g, n - 1) + larger_before(g, g[n - 1], n - 1)
    }
}

/// Number of pairs of tiles that stand in the wrong order.
pub open spec fn inversions(g: Seq<u8>) -> int {
    inversions_upto(g, 9)
}

/// Among the cells strictly between `a` and `b` and before `n`, how many
/// hold a tile smaller than the tile in `b`. There are two such cells at
/// most.
spec fn smaller_between(g: Seq<u8>, a: int, b: int, n: int) -> int {
    (if a + 1 < b && a + 1 < n {
        inverted(g[b], g[a + 1])
    } else {
        0
    }) + (if a + 2 < b && a + 2 < n {
        inverted(g[b], g[a + 2])
    } else {
        0
    })
}

/// Among the cells strictly between `a` and `b`, how many hold a tile
/// larger than the tile in `b`.
spec fn larger_between(g: Seq<u8>, a: int, b: int) -> int {
    (if a + 1 < b {
        inverted(g[a + 1], g[b])
    } else {
        0
    }) + (if a + 2 < b {
        inverted(g[a + 2], g[b])
    } else {
        0
    })
}

/// Nothing counts as larger than the blank.
proof fn lemma_larger_before_blank(g: Seq<u8>, i: int)
    ensures
        larger_before(g, 0u8, i) == 0,
    decreases i,
{
    if i > 0 {
        lemma_larger_before_blank(g, i - 1);
    }
}

/// When the blank in cell `a` changes places with the tile in cell `b`, the
/// count of tiles larger than `tile` before cell `i` grows by that tile if
/// `i` lies between the two cells, and stays as it is otherwise.
proof fn lemma_larger_before_exchange(
    g: Seq<u8>,
    next: Seq<u8>,
    a: int,
    b: int,
    tile: u8,
    i: int,
)
    requires
        g.len() == 9,
        0 <= a < b < 9,
        g[a] == 0,
        next == g.update(a, g[b]).update(b, 0u8),
        0 <= i <= 9,
    ensures
        larger_before(next, tile, i) - larger_before(g, tile, i) == if a < i <= b {
            inverted(g[b], tile)
        } else {
            0int
        },
    decreases i,
{
    if i > 0 {
        lemma_larger_before_exchange(g, next, a, b, tile, i - 1);
    }
}

/// How the count of inversions within the first `n` cells changes when the
/// blank in cell `a` changes places with the tile in cell `b`.
proof fn lemma_upto_exchange(g: Seq<u8>, next: Seq<u8>, a: int, b: int, n: int)
    requires
        g.len() == 9,
        0 <= a < b < 9,
        b == a + 1 || b == a + 3,
        g[a] == 0,
        next == g.update(a, g[b]).update(b, 0u8),
        0 <= n <= 9,
    ensures
        inversions_upto(next, n) - inversions_upto(g, n) == if n <= a {
            0int
        } else if n <= b {
            larger_before(g, g[b], a) + smaller_between(g, a, b, n)
        } else {
            smaller_between(g, a, b, 9) - larger_between(g, a, b)
        },
    decreases n,
{
    if n > 0 {
        lemma_upto_exchange(g, next, a, b, n - 1);
        let j: int = n - 1;
        lemma_larger_before_exchange(g, next, a, b, next[j], j);
        if j == a {
            lemma_larger_before_blank(g, j);
        } else if j == b {
            lemma_larger_before_blank(next, j);
            assert(larger_before(g, g[b], a + 1) == larger_before(g, g[b], a) + inverted(
                g[a],
                g[b],
            ));
            if b == a + 3 {
                assert(larger_before(g, g[b], a + 2) == larger_before(g, g[b], a + 1) + inverted(
                    g[a + 1],
                    g[b],
                ));
                assert(larger_before(g, g[b], a + 3) == larger_before(g, g[b], a + 2) + inverted(
                    g[a + 2],
                    g[b],
                ));
            }
        }
    }
}

/// Exchanging the blank in cell `a` with the tile one or three cells
/// further on keeps the parity of the inversions: the tile passes no tile,
/// or two.
proof fn lemma_exchange(g: Seq<u8>, next: Seq<u8>, a: int, b: int)
    requires
        is_grid(g),
        0 <= a < b < 9,
        b == a + 1 || b == a + 3,
        g[a] == 0,
        next == g.update(a, g[b]).update(b, 0u8),
    ensures
        inversions(next) % 2 == inversions(g) % 2,
{
    lemma_upto_exchange(g, next, a, b, 9);
    assert(g[a] != g[b]);
    if b == a + 3 {
        assert(g[a] != g[a + 1]);
        assert(g[a] != g[a + 2]);
        assert(g[a + 1] != g[b]);
        assert(g[a + 2] != g[b]);
    }
}

/// A move keeps the parity of the number of inversions.
pub proof fn lemma_move_keeps_parity(g: Seq<u8>, d: Direction)
    requires
        is_grid(g),
        slide(g, d) is Some,
    ensures
        inversions(slide(g, d).unwrap()) % 2 == inversions(g) % 2,
{
    lemma_slide(g, d);
    let next = slide(g, d).unwrap();
    let p: int = cell_of(g, 0u8);
    let q: int = destination(p, d).unwrap();
    if p < q {
        lemma_exchange(g, next, p, q);
    } else {
        assert(g =~= next.update(q, next[p]).update(p, 0u8));
        lemma_exchange(next, g, q, p);
    }
}

/// Every grid that a plan leads to has the parity of inversions of the grid
/// the plan started from.
pub proof fn lemma_plan_keeps_parity(g: Seq<u8>, plan: Seq<Direction>)
    requires
        is_grid(g),
        replay(g, plan) is Some,
    ensures
        inversions(replay(g, plan).unwrap()) % 2 == inversions(g) % 2,
    decreases plan.len(),
{
    if plan.len() > 0 {
        lemma_slide(g, plan[0]);
        lemma_move_keeps_parity(g, plan[0]);
        lemma_plan_keeps_parity(slide(g, plan[0]).unwrap(), plan.drop_first());
    }
}

/// Before any cell of the solved grid, no tile is larger than the cell's
/// own.
proof fn lemma_goal_sorted(j: int, i: int)
    requires
        0 <= i <= j < 9,
    ensures
        larger_before(goal_grid(), goal_grid()[j], i) == 0,
    decreases i,
{
    if i > 0 {
        lemma_goal_sorted(j, i - 1);
        assert(goal_grid()[i - 1] == i);
        assert(j < 8 ==> goal_grid()[j] == j + 1);
        assert(goal_grid()[8] == 0);
    }
}

/// The solved grid has no inversions.
proof fn lemma_goal_inversions(n: int)
    requires
        0 <= n <= 9,
    ensures
        inversions_upto(goal_grid(), n) == 0,
    decreases n,
{
    if n > 0 {
        lemma_goal_inversions(n - 1);
        lemma_goal_sorted(n - 1, n - 1);
    }
}

/// A valid grid with an odd number of inversions cannot be solved.
pub proof fn lemma_odd_inversions_unsolvable(g: Seq<u8>)
    requires
        is_grid(g),
        inversions(g) % 2 == 1,
    ensures
        unsolvable(g),
{
    lemma_goal_inversions(9);
    assert forall|plan: Seq<Direction>| !solves(g, plan) by {
        if solves(g, plan) {
            lemma_plan_keeps_parity(g, plan);
        }
    }
}

} // verus!
