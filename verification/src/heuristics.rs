//! Estimators of the remaining distance to the solved board.
//!
//! Each estimator is a pure function of the board. Their values are defined
//! here as spec functions over the grid, together with what can be said of
//! them along a sequence of moves.

use vstd::prelude::*;
use crate::board::Board;
use crate::board::Direction;
use crate::board::cell_of;
use crate::board::destination;
use crate::board::goal_grid;
use crate::board::is_grid;
use crate::board::lemma_cell_of;
use crate::board::lemma_slide;
use crate::board::slide;
use crate::board::solves;

verus! {

/// A heuristic function to estimate the cost of reaching the solved board.
#[derive(Debug, Clone, Copy, PartialEq, Eq, Structural)]
pub enum Heuristic {
    /// Always 0.
    Blind,
    /// The number of cells that do not show their final label.
    Hamming,
    /// The sum over all labels of the row and column distance to the
    /// label's final cell.
    Manhattan,
}

/// Among the first `n` cells, how many hold another label than the solved
/// grid does. The blank counts like any tile.
pub open spec fn misplaced(g: Seq<u8>, n: int) -> int
    decreases n,
{
    if n <= 0 {
        0
    } else {
        misplaced(g, n - 1) + if g[n - 1] != goal_grid()[n - 1] {
            1int
        } else {
            0int
        }
    }
}

/// Among the first `n` cells, how many hold a tile (not the blank) that
/// belongs elsewhere.
pub open spec fn displaced_tiles(g: Seq<u8>, n: int) -> int
    decreases n,
{
    if n <= 0 {
        0
    } else {
        displaced_tiles(g, n - 1) + if g[n - 1] != 0 && g[n - 1] != goal_grid()[n - 1] {
            1int
        } else {
            0int
        }
    }
}

/// Absolute difference.
pub open spec fn gap(a: int, b: int) -> int {
    if a >= b {
        a - b
    } else {
        b - a
    }
}

/// Number of row steps plus column steps between two cells.
pub open spec fn cell_distance(a: int, b: int) -> int {
    gap(a / 3, b / 3) + gap(a % 3, b % 3)
}

/// How far `label` is from its final cell.
pub open spec fn label_distance(g: Seq<u8>, label: u8) -> int {
    cell_distance(cell_of(g, label), cell_of(goal_grid(), label))
}

/// Sum of the distances of the labels from `from` up to, not including, `n`.
pub open spec fn distance_sum(g: Seq<u8>, from: int, n: int) -> int
    decreases n,
{
    if n <= from || n <= 0 {
        0
    } else {
        distance_sum(g, from, n - 1) + label_distance(g, (n - 1) as u8)
    }
}

/// The Hamming estimate of a grid: all cells, the blank's included.
pub open spec fn hamming(g: Seq<u8>) -> int {
    misplaced(g, 9)
}

/// The Manhattan estimate of a grid: all labels, the blank included.
pub open spec fn manhattan(g: Seq<u8>) -> int {
    distance_sum(g, 0, 9)
}

fn abs_diff(a: usize, b: usize) -> (d: usize)
    ensures
        d == gap(a as int, b as int),
{
    if a >= b {
        a - b
    } else {
        b - a
    }
}

impl Heuristic {
    /// The value of the estimator on a grid.
    pub open spec fn estimate_spec(self, g: Seq<u8>) -> int {
        match self {
            Heuristic::Blind => 0,
            Heuristic::Hamming => hamming(g),
            Heuristic::Manhattan => manhattan(g),
        }
    }

    /// The part of the estimate that is due to tiles alone. It never
    /// exceeds the number of moves still needed, and one move changes it by
    /// at most one.
    pub open spec fn tiles_part(self, g: Seq<u8>) -> int {
        match self {
            Heuristic::Blind => 0,
            Heuristic::Hamming => displaced_tiles(g, 9),
            Heuristic::Manhattan => distance_sum(g, 1, 9),
        }
    }

    /// The part of the estimate that is due to the blank.
    pub open spec fn blank_part(self, g: Seq<u8>) -> int {
        match self {
            Heuristic::Blind => 0,
            Heuristic::Hamming => if g[8] == 0 {
                0
            } else {
                1
            },
            Heuristic::Manhattan => label_distance(g, 0u8),
        }
    }

    /// Estimates the number of moves from `board` to the solved board.
    pub fn estimate(&self, board: &Board) -> (h: u32)
        requires
            board.wf(),
        ensures
            h == self.estimate_spec(board@),
            h <= 36,
    {
        let goal: Board = Board::goal();
        match self {
            Heuristic::Blind => 0,
            Heuristic::Hamming => {
                let mut amount: u32 = 0;
                let mut i: usize = 0;
                while i < 3
                    invariant
                        i <= 3,
                        goal@ == goal_grid(),
                        amount == misplaced(board@, 3 * i),
                        amount <= 3 * i,
                    decreases 3 - i,
                {
                    let mut j: usize = 0;
                    while j < 3
                        invariant
                            i < 3,
                            j <= 3,
                            goal@ == goal_grid(),
                            amount == misplaced(board@, 3 * i + j),
                            amount <= 3 * i + j,
                        decreases 3 - j,
                    {
                        if goal.value_at(i, j) != board.value_at(i, j) {
                            amount += 1;
                        }
                        j += 1;
                    }
                    i += 1;
                }
                amount
            },
            Heuristic::Manhattan => {
                let mut distance: usize = 0;
                let mut n: u8 = 0;
                while n < 9
                    invariant
                        n <= 9,
                        board.wf(),
                        goal.wf(),
                        goal@ == goal_grid(),
                        distance == distance_sum(board@, 0, n as int),
                        distance <= 4 * n,
                    decreases 9 - n,
                {
                    let at: (usize, usize) = board.position(n);
                    let home: (usize, usize) = goal.position(n);
                    distance += abs_diff(at.0, home.0) + abs_diff(at.1, home.1);
                    n += 1;
                }
                distance as u32
            },
        }
    }
}

/// Where each label sits in the solved grid.
pub proof fn lemma_goal_cells()
    ensures
        is_grid(goal_grid()),
        cell_of(goal_grid(), 0u8) == 8,
        forall|label: u8| 1 <= label < 9 ==> #[trigger] cell_of(goal_grid(), label) == label - 1,
{
    let goal = goal_grid();
    assert(is_grid(goal));
    lemma_cell_of(goal, 0u8);
    assert(goal[8] == 0);
    assert forall|label: u8| 1 <= label < 9 implies #[trigger] cell_of(goal, label) == label
        - 1 by {
        lemma_cell_of(goal, label);
        assert(goal[label - 1] == label);
    }
}

/// Up to any cell, the misplaced cells are the displaced tiles plus the
/// blank, if it has been passed and is not in the last cell.
proof fn lemma_misplaced_split(g: Seq<u8>, n: int)
    requires
        is_grid(g),
        0 <= n <= 9,
    ensures
        misplaced(g, n) == displaced_tiles(g, n) + if cell_of(g, 0u8) < n && cell_of(g, 0u8) != 8 {
            1int
        } else {
            0int
        },
        0 <= displaced_tiles(g, n) <= n,
    decreases n,
{
    lemma_cell_of(g, 0u8);
    lemma_goal_cells();
    if n > 0 {
        lemma_misplaced_split(g, n - 1);
        let label: u8 = goal_grid()[n - 1];
        lemma_cell_of(goal_grid(), label);
    }
}

/// Leaving out the blank lowers the distance sum by the blank's distance.
proof fn lemma_distance_split(g: Seq<u8>, n: int)
    requires
        is_grid(g),
        1 <= n <= 9,
    ensures
        distance_sum(g, 0, n) == distance_sum(g, 1, n) + label_distance(g, 0u8),
        distance_sum(g, 1, n) >= 0,
        label_distance(g, 0u8) >= 0,
    decreases n,
{
    if n > 1 {
        lemma_distance_split(g, n - 1);
    } else {
        assert(distance_sum(g, 0, 0) == 0);
    }
}

/// Every estimate splits into a part due to the tiles and a part due to the
/// blank, both non-negative.
pub proof fn lemma_parts(h: Heuristic, g: Seq<u8>)
    requires
        is_grid(g),
    ensures
        h.estimate_spec(g) == h.tiles_part(g) + h.blank_part(g),
        h.tiles_part(g) >= 0,
        h.blank_part(g) >= 0,
        h != Heuristic::Manhattan ==> h.blank_part(g) <= 1,
{
    match h {
        Heuristic::Blind => {},
        Heuristic::Hamming => {
            lemma_cell_of(g, 0u8);
            lemma_misplaced_split(g, 9);
        },
        Heuristic::Manhattan => {
            lemma_distance_split(g, 9);
        },
    }
}

/// All estimators give 0 on the solved grid.
pub proof fn lemma_zero_at_goal(h: Heuristic)
    ensures
        h.estimate_spec(goal_grid()) == 0,
        h.tiles_part(goal_grid()) == 0,
{
    lemma_goal_cells();
    lemma_parts(h, goal_grid());
    match h {
        Heuristic::Blind => {},
        Heuristic::Hamming => {
            reveal_with_fuel(misplaced, 10);
        },
        Heuristic::Manhattan => {
            reveal_with_fuel(distance_sum, 10);
        },
    }
}

/// The Hamming and Manhattan estimates are 0 on the solved grid only.
pub proof fn lemma_positive_off_goal(h: Heuristic, g: Seq<u8>)
    requires
        is_grid(g),
        g != goal_grid(),
        h != Heuristic::Blind,
    ensures
        h.estimate_spec(g) > 0,
{
    match h {
        Heuristic::Blind => {},
        Heuristic::Hamming => {
            reveal_with_fuel(misplaced, 10);
            if hamming(g) <= 0 {
                assert(g =~= goal_grid());
            }
        },
        Heuristic::Manhattan => {
            reveal_with_fuel(distance_sum, 10);
            lemma_goal_cells();
            assert forall|label: u8| label < 9 implies label_distance(g, label) >= 0 by {}
            if manhattan(g) <= 0 {
                assert forall|i: int| 0 <= i < 9 implies g[i] == goal_grid()[i] by {
                    let label: u8 = goal_grid()[i];
                    lemma_cell_of(g, label);
                    lemma_cell_of(goal_grid(), label);
                    assert(label_distance(g, label) == 0);
                    let a: int = cell_of(g, label);
                    assert(a / 3 == i / 3 && a % 3 == i % 3);
                }
                assert(g =~= goal_grid());
            }
        },
    }
}

/// How a move changes the count of displaced tiles: only the tile that
/// moved can enter or leave the count.
proof fn lemma_displaced_step(g: Seq<u8>, next: Seq<u8>, p: int, q: int, n: int)
    requires
        is_grid(g),
        0 <= p < 9,
        0 <= q < 9,
        p != q,
        g[p] == 0,
        next == g.update(p, g[q]).update(q, 0u8),
        0 <= n <= 9,
    ensures
        displaced_tiles(next, n) - displaced_tiles(g, n) == (if p < n && g[q] != goal_grid()[p] {
            1int
        } else {
            0int
        }) - (if q < n && g[q] != goal_grid()[q] {
            1int
        } else {
            0int
        }),
    decreases n,
{
    if n > 0 {
        lemma_displaced_step(g, next, p, q, n - 1);
        if p < q {
            assert(g[p] != g[q]);
        } else {
            assert(g[q] != g[p]);
        }
    }
}

/// How a move changes the distance sum: only the blank and the tile that
/// moved contribute.
proof fn lemma_distance_step(g: Seq<u8>, next: Seq<u8>, tile: u8, from: int, n: int)
    requires
        0 < tile < 9,
        0 <= from,
        0 <= n <= 9,
        forall|label: u8|
            0 < label < 9 && label != tile ==> #[trigger] cell_of(next, label) == cell_of(
                g,
                label,
            ),
    ensures
        distance_sum(next, from, n) - distance_sum(g, from, n) == (if from <= 0 < n {
            label_distance(next, 0u8) - label_distance(g, 0u8)
        } else {
            0int
        }) + (if from <= tile < n {
            label_distance(next, tile) - label_distance(g, tile)
        } else {
            0int
        }),
    decreases n,
{
    if n > 0 && n > from {
        lemma_distance_step(g, next, tile, from, n - 1);
        let label: u8 = (n - 1) as u8;
        if label != 0 && label != tile {
            assert(cell_of(next, label) == cell_of(g, label));
        }
    }
}

/// Cells one move apart are at distances from a third cell that differ by
/// one at most.
proof fn lemma_neighbour_distance(p: int, d: Direction, x: int)
    requires
        0 <= p < 9,
        0 <= x < 9,
        destination(p, d) is Some,
    ensures
        -1 <= cell_distance(destination(p, d).unwrap(), x) - cell_distance(p, x) <= 1,
{
    let q: int = destination(p, d).unwrap();
    match d {
        Direction::Left => {
            assert(q / 3 == p / 3 && q % 3 == p % 3 - 1);
        },
        Direction::Right => {
            assert(q / 3 == p / 3 && q % 3 == p % 3 + 1);
        },
        Direction::Up => {
            assert(q / 3 == p / 3 - 1 && q % 3 == p % 3);
        },
        Direction::Down => {
            assert(q / 3 == p / 3 + 1 && q % 3 == p % 3);
        },
    }
}

/// One move changes the tiles' part of an estimate by at most one, and the
/// whole estimate by at most two.
pub proof fn lemma_step(h: Heuristic, g: Seq<u8>, d: Direction)
    requires
        is_grid(g),
        slide(g, d) is Some,
    ensures
        -1 <= h.tiles_part(slide(g, d).unwrap()) - h.tiles_part(g) <= 1,
        -1 <= h.blank_part(slide(g, d).unwrap()) - h.blank_part(g) <= 1,
        -2 <= h.estimate_spec(slide(g, d).unwrap()) - h.estimate_spec(g) <= 2,
{
    lemma_slide(g, d);
    let next = slide(g, d).unwrap();
    let p: int = cell_of(g, 0u8);
    let q: int = cell_of(next, 0u8);
    lemma_parts(h, g);
    lemma_parts(h, next);
    match h {
        Heuristic::Blind => {},
        Heuristic::Hamming => {
            lemma_displaced_step(g, next, p, q, 9);
        },
        Heuristic::Manhattan => {
            lemma_goal_cells();
            let tile: u8 = g[q];
            if p < q {
                assert(g[p] != g[q]);
            } else {
                assert(g[q] != g[p]);
            }
            assert forall|label: u8| 0 < label < 9 && label != tile implies #[trigger] cell_of(
                next,
                label,
            ) == cell_of(g, label) by {
                lemma_cell_of(g, label);
                lemma_cell_of(next, label);
            }
            lemma_cell_of(g, tile);
            lemma_cell_of(next, tile);
            lemma_cell_of(goal_grid(), tile);
            lemma_distance_step(g, next, tile, 1, 9);
            lemma_neighbour_distance(p, d, cell_of(goal_grid(), tile));
            lemma_neighbour_distance(p, d, 8);
        },
    }
}

/// The tiles' part of an estimate never exceeds the length of a plan that
/// solves the grid.
pub proof fn lemma_tiles_part_admissible(h: Heuristic, g: Seq<u8>, plan: Seq<Direction>)
    requires
        is_grid(g),
        solves(g, plan),
    ensures
        h.tiles_part(g) <= plan.len(),
    decreases plan.len(),
{
    if plan.len() == 0 {
        lemma_zero_at_goal(h);
    } else {
        lemma_slide(g, plan[0]);
        lemma_step(h, g, plan[0]);
        lemma_tiles_part_admissible(h, slide(g, plan[0]).unwrap(), plan.drop_first());
    }
}

/// What holds of each estimate against the length of any plan that solves
/// the grid: Blind never exceeds it; Hamming exceeds it by at most one, and
/// not at all when the blank is in its final cell; Manhattan exceeds it by
/// at most the blank's own distance, and is never more than twice the
/// length.
pub proof fn lemma_estimate_bounds(h: Heuristic, g: Seq<u8>, plan: Seq<Direction>)
    requires
        is_grid(g),
        solves(g, plan),
    ensures
        h.estimate_spec(g) <= plan.len() + h.blank_part(g),
        h == Heuristic::Blind ==> h.estimate_spec(g) <= plan.len(),
        h == Heuristic::Hamming ==> h.estimate_spec(g) <= plan.len() + 1,
        h == Heuristic::Hamming && g[8] == 0 ==> h.estimate_spec(g) <= plan.len(),
        h.estimate_spec(g) <= 2 * plan.len(),
{
    lemma_parts(h, g);
    lemma_tiles_part_admissible(h, g, plan);
    lemma_estimate_halved(h, g, plan);
}

/// An estimate is at most twice the length of a plan that solves the grid.
proof fn lemma_estimate_halved(h: Heuristic, g: Seq<u8>, plan: Seq<Direction>)
    requires
        is_grid(g),
        solves(g, plan),
    ensures
        h.estimate_spec(g) <= 2 * plan.len(),
    decreases plan.len(),
{
    if plan.len() == 0 {
        lemma_zero_at_goal(h);
    } else {
        lemma_slide(g, plan[0]);
        lemma_step(h, g, plan[0]);
        lemma_estimate_halved(h, slide(g, plan[0]).unwrap(), plan.drop_first());
    }
}

} // verus!
