//! The puzzle state: a 3x3 grid holding the labels 0..=8 once each, where 0
//! is the blank, together with the moves that slide the blank around.
//!
//! The mathematical model of a board is its row-major sequence of labels, a
//! `Seq<u8>` of length nine. All rules of the puzzle are spec functions over
//! that sequence; the executable [`Board`] is tied to them through its view.

use vstd::prelude::*;
use vstd::set_lib::lemma_int_range;
use vstd::set_lib::lemma_len_subset;
use vstd::set_lib::lemma_map_size_bound;
use vstd::set_lib::set_int_range;

verus! {

/// The way the blank slides.
#[derive(Clone, Copy, Debug, PartialEq, Eq, Hash, Structural)]
pub enum Direction {
    Left,
    Right,
    Up,
    Down,
}

/// A row-major grid is valid when it has nine cells that hold the labels
/// 0..=8, each exactly once.
pub open spec fn is_grid(g: Seq<u8>) -> bool {
    &&& g.len() == 9
    &&& forall|i: int| 0 <= i < 9 ==> #[trigger] g[i] < 9
    &&& forall|i: int, j: int| 0 <= i < j < 9 ==> g[i] != g[j]
}

/// The solved arrangement: tiles in reading order, blank in the last cell.
pub open spec fn goal_grid() -> Seq<u8> {
    seq![1u8, 2u8, 3u8, 4u8, 5u8, 6u8, 7u8, 8u8, 0u8]
}

/// Row-major index of the cell that holds `label`.
pub open spec fn cell_of(g: Seq<u8>, label: u8) -> int {
    choose|i: int| 0 <= i < g.len() && g[i] == label
}

/// Where the blank lands when it leaves cell `p` in direction `d`, if the
/// edge of the grid does not block it.
pub open spec fn destination(p: int, d: Direction) -> Option<int> {
    match d {
        Direction::Left => if p % 3 == 0 { None } else { Some(p - 1) },
        Direction::Right => if p % 3 == 2 { None } else { Some(p + 1) },
        Direction::Up => if p < 3 { None } else { Some(p - 3) },
        Direction::Down => if p >= 6 { None } else { Some(p + 3) },
    }
}

/// One move: the blank trades places with its neighbour in direction `d`.
/// `None` when the blank sits on the edge that `d` would cross.
pub open spec fn slide(g: Seq<u8>, d: Direction) -> Option<Seq<u8>> {
    let p = cell_of(g, 0u8);
    match destination(p, d) {
        None => None,
        Some(q) => Some(g.update(p, g[q]).update(q, 0u8)),
    }
}

/// The grid reached by making the moves of `plan` in order, or `None` as
/// soon as one of them is blocked.
pub open spec fn replay(g: Seq<u8>, plan: Seq<Direction>) -> Option<Seq<u8>>
    decreases plan.len(),
{
    if plan.len() == 0 {
        Some(g)
    } else {
        match slide(g, plan[0]) {
            None => None,
            Some(next) => replay(next, plan.drop_first()),
        }
    }
}

/// `plan` leads from `g` to the solved arrangement without a blocked move.
pub open spec fn solves(g: Seq<u8>, plan: Seq<Direction>) -> bool {
    replay(g, plan) == Some(goal_grid())
}

/// No plan leads from `g` to the solved arrangement.
pub open spec fn unsolvable(g: Seq<u8>) -> bool {
    forall|plan: Seq<Direction>| !solves(g, plan)
}

/// The grid read as a nine-digit number in base 9, first cell least
/// significant. Distinct valid grids have distinct codes.
pub open spec fn grid_code(g: Seq<u8>) -> int {
    g[0] + 9 * (g[1] + 9 * (g[2] + 9 * (g[3] + 9 * (g[4] + 9 * (g[5] + 9 * (g[6] + 9 * (g[7] + 9
        * g[8])))))))
}

/// One more than the largest code of a valid grid (9 to the 9th power).
pub const CODE_LIMIT: u32 = 387420489;

/// The nine cells of three rows, in reading order.
pub open spec fn rows_grid(rows: [[u8; 3]; 3]) -> Seq<u8> {
    seq![
        rows[0][0],
        rows[0][1],
        rows[0][2],
        rows[1][0],
        rows[1][1],
        rows[1][2],
        rows[2][0],
        rows[2][1],
        rows[2][2],
    ]
}

/// Every label has a cell in a valid grid, and that cell is the only one
/// holding it.
pub proof fn lemma_cell_of(g: Seq<u8>, label: u8)
    requires
        is_grid(g),
        label < 9,
    ensures
        0 <= cell_of(g, label) < 9,
        g[cell_of(g, label)] == label,
        forall|i: int| 0 <= i < 9 && g[i] == label ==> i == cell_of(g, label),
{
    if forall|i: int| 0 <= i < 9 ==> g[i] != label {
        assert(g[0] != label && g[1] != label && g[2] != label && g[3] != label && g[4] != label
            && g[5] != label && g[6] != label && g[7] != label && g[8] != label);
        assert(false);
    }
    let w: int = choose|i: int| 0 <= i < 9 && g[i] == label;
    assert(0 <= w < g.len() && g[w] == label);
}

/// A move keeps a valid grid valid and puts the blank on the destination
/// cell.
pub proof fn lemma_slide(g: Seq<u8>, d: Direction)
    requires
        is_grid(g),
    ensures
        0 <= cell_of(g, 0u8) < 9,
        g[cell_of(g, 0u8)] == 0,
        match slide(g, d) {
            None => destination(cell_of(g, 0u8), d) is None,
            Some(next) => {
                &&& is_grid(next)
                &&& destination(cell_of(g, 0u8), d) matches Some(q)
                &&& 0 <= q < 9
                &&& cell_of(next, 0u8) == q
                &&& next == g.update(cell_of(g, 0u8), g[q]).update(q, 0u8)
            },
        },
{
    lemma_cell_of(g, 0u8);
    let p: int = cell_of(g, 0u8);
    match destination(p, d) {
        None => {},
        Some(q) => {
            let next = g.update(p, g[q]).update(q, 0u8);
            assert(is_grid(next)) by {
                assert forall|i: int, j: int| 0 <= i < j < 9 implies next[i] != next[j] by {
                    let a: int = if i == p { q } else if i == q { p } else { i };
                    let b: int = if j == p { q } else if j == q { p } else { j };
                    assert(next[i] == g[a]);
                    assert(next[j] == g[b]);
                    if a < b {
                        assert(g[a] != g[b]);
                    } else {
                        assert(g[b] != g[a]);
                    }
                }
            }
            lemma_cell_of(next, 0u8);
        },
    }
}

/// Valid grids with the same code are the same grid, and every code lies
/// below [`CODE_LIMIT`].
pub proof fn lemma_code(a: Seq<u8>, b: Seq<u8>)
    requires
        is_grid(a),
        is_grid(b),
    ensures
        0 <= grid_code(a) < CODE_LIMIT,
        grid_code(a) == grid_code(b) ==> a == b,
{
    assert(a[0] < 9 && a[1] < 9 && a[2] < 9 && a[3] < 9 && a[4] < 9 && a[5] < 9 && a[6] < 9 && a[7]
        < 9 && a[8] < 9);
    assert(b[0] < 9 && b[1] < 9 && b[2] < 9 && b[3] < 9 && b[4] < 9 && b[5] < 9 && b[6] < 9 && b[7]
        < 9 && b[8] < 9);
    if grid_code(a) == grid_code(b) {
        let a7: int = a[7] + 9 * a[8];
        let b7: int = b[7] + 9 * b[8];
        let a6: int = a[6] + 9 * a7;
        let b6: int = b[6] + 9 * b7;
        let a5: int = a[5] + 9 * a6;
        let b5: int = b[5] + 9 * b6;
        let a4: int = a[4] + 9 * a5;
        let b4: int = b[4] + 9 * b5;
        let a3: int = a[3] + 9 * a4;
        let b3: int = b[3] + 9 * b4;
        let a2: int = a[2] + 9 * a3;
        let b2: int = b[2] + 9 * b3;
        let a1: int = a[1] + 9 * a2;
        let b1: int = b[1] + 9 * b2;
        assert(a[0] + 9 * a1 == b[0] + 9 * b1);
        assert(a1 == b1 && a[0] == b[0]);
        assert(a2 == b2 && a[1] == b[1]);
        assert(a3 == b3 && a[2] == b[2]);
        assert(a4 == b4 && a[3] == b[3]);
        assert(a5 == b5 && a[4] == b[4]);
        assert(a6 == b6 && a[5] == b[5]);
        assert(a7 == b7 && a[6] == b[6]);
        assert(a[7] == b[7] && a[8] == b[8]);
        assert(a =~= b);
    }
}

/// A plan that ends in `d` replays as its front part followed by `d`.
pub proof fn lemma_replay_push(g: Seq<u8>, plan: Seq<Direction>, d: Direction)
    ensures
        replay(g, plan.push(d)) == match replay(g, plan) {
            None => None,
            Some(mid) => slide(mid, d),
        },
    decreases plan.len(),
{
    if plan.len() == 0 {
        assert(plan.push(d).drop_first() =~= plan);
        assert(replay(g, plan.push(d).drop_first()) == Some(g)) by {
            assert(plan.push(d).drop_first().len() == 0);
        }
        match slide(g, d) {
            None => {},
            Some(next) => {
                assert(replay(next, plan.push(d).drop_first()) == Some(next));
            },
        }
    } else {
        assert(plan.push(d)[0] == plan[0]);
        assert(plan.push(d).drop_first() =~= plan.drop_first().push(d));
        match slide(g, plan[0]) {
            None => {},
            Some(next) => {
                lemma_replay_push(next, plan.drop_first(), d);
            },
        }
    }
}

/// 1 if the blank's row and column numbers add up to an odd number, else 0.
pub open spec fn blank_parity(g: Seq<u8>) -> int {
    (cell_of(g, 0u8) / 3 + cell_of(g, 0u8) % 3) % 2
}

/// Replaying a plan from a valid grid ends on a valid grid, and the length of
/// the plan is even exactly when the blank's parity is the same at both
/// ends. So all plans between the same two grids are of the same parity.
pub proof fn lemma_replay(g: Seq<u8>, plan: Seq<Direction>)
    requires
        is_grid(g),
        replay(g, plan) is Some,
    ensures
        is_grid(replay(g, plan).unwrap()),
        (blank_parity(g) + blank_parity(replay(g, plan).unwrap()) + plan.len()) % 2 == 0,
    decreases plan.len(),
{
    if plan.len() > 0 {
        lemma_slide(g, plan[0]);
        let next = slide(g, plan[0]).unwrap();
        assert(blank_parity(next) != blank_parity(g)) by {
            let p: int = cell_of(g, 0u8);
            let q: int = cell_of(next, 0u8);
            match plan[0] {
                Direction::Left => {
                    assert(q / 3 == p / 3 && q % 3 == p % 3 - 1);
                },
                Direction::Right => {
                    assert(q / 3 == p / 3 && q % 3 == p % 3 + 1);
                },
                Direction::Up => {
                    assert(q / 3 == p / 3 - 1 && q % 3 == p % 3);
                },
                Direction::Down => {
                    assert(q / 3 == p / 3 + 1 && q % 3 == p % 3);
                },
            }
        }
        lemma_replay(next, plan.drop_first());
    }
}

/// A plan is a shortest one if it solves the grid and no plan that solves
/// the grid is shorter.
pub open spec fn is_shortest_plan(g: Seq<u8>, plan: Seq<Direction>) -> bool {
    &&& solves(g, plan)
    &&& forall|other: Seq<Direction>| #[trigger] solves(g, other) ==> plan.len() <= other.len()
}

/// The grids that some plan leads to from `g`; `g` itself is one of them.
pub open spec fn reachable_grids(g: Seq<u8>) -> Set<Seq<u8>> {
    Set::new(|x: Seq<u8>| exists|plan: Seq<Direction>| (#[trigger] replay(g, plan)) == Some(x))
}

/// The valid grid that has the given code, where there is one.
pub open spec fn grid_with_code(code: int) -> Seq<u8> {
    choose|x: Seq<u8>| is_grid(x) && grid_code(x) == code
}

/// From a valid grid only finitely many grids can be reached, all of them
/// valid.
pub proof fn lemma_reachable(g: Seq<u8>)
    requires
        is_grid(g),
    ensures
        reachable_grids(g).finite(),
        reachable_grids(g).contains(g),
        1 <= reachable_grids(g).len() <= CODE_LIMIT,
        forall|x: Seq<u8>| #[trigger] reachable_grids(g).contains(x) ==> is_grid(x),
{
    let r = reachable_grids(g);
    assert forall|x: Seq<u8>| #[trigger] r.contains(x) implies is_grid(x) by {
        let plan = choose|plan: Seq<Direction>| (#[trigger] replay(g, plan)) == Some(x);
        lemma_replay(g, plan);
    }
    let code = |x: Seq<u8>| grid_code(x);
    let back = |c: int| grid_with_code(c);
    let codes = r.map(code);
    let range = set_int_range(0, CODE_LIMIT as int);
    lemma_int_range(0, CODE_LIMIT as int);
    assert forall|c: int| codes.contains(c) implies range.contains(c) by {
        let x = choose|x: Seq<u8>| r.contains(x) && c == code(x);
        lemma_code(x, x);
    }
    lemma_len_subset(codes, range);
    assert forall|x: Seq<u8>| r.contains(x) implies #[trigger] codes.map(back).contains(x) by {
        assert(codes.contains(code(x)));
        lemma_code(grid_with_code(grid_code(x)), x);
        assert(x == back(code(x)));
    }
    assert forall|y: Seq<u8>| #[trigger] codes.map(back).contains(y) implies r.contains(y) by {
        let c = choose|c: int| codes.contains(c) && y == back(c);
        let x = choose|x: Seq<u8>| r.contains(x) && c == code(x);
        lemma_code(grid_with_code(grid_code(x)), x);
    }
    assert(codes.map(back) =~= r);
    lemma_map_size_bound(codes, r, back);
    assert(replay(g, Seq::<Direction>::empty()) == Some(g));
    assert(r.contains(g));
}

/// All shortest plans for a grid have the same length, whichever way they
/// were found.
pub proof fn lemma_shortest_plans_agree(g: Seq<u8>, first: Seq<Direction>, second: Seq<Direction>)
    requires
        is_shortest_plan(g, first),
        is_shortest_plan(g, second),
    ensures
        first.len() == second.len(),
{
}

/// Any two plans that solve the same grid have lengths of the same parity.
pub proof fn lemma_plans_same_parity(g: Seq<u8>, first: Seq<Direction>, second: Seq<Direction>)
    requires
        is_grid(g),
        solves(g, first),
        solves(g, second),
    ensures
        first.len() % 2 == second.len() % 2,
{
    lemma_replay(g, first);
    lemma_replay(g, second);
}

/// Some cell among the first `n` holds `label`.
pub open spec fn occurs(g: Seq<u8>, label: int, n: int) -> bool {
    exists|k: int| 0 <= k < n && #[trigger] g[k] == label
}

/// An immutable 3x3 board.
#[derive(Clone, Copy, Debug, Hash)]
pub struct Board {
    cells: [u8; 9],
}

impl View for Board {
    type V = Seq<u8>;

    closed spec fn view(&self) -> Seq<u8> {
        self.cells@
    }
}

impl PartialEq for Board {
    fn eq(&self, other: &Board) -> (same: bool) {
        let same: bool = self.cells[0] == other.cells[0] && self.cells[1] == other.cells[1]
            && self.cells[2] == other.cells[2] && self.cells[3] == other.cells[3] && self.cells[4]
            == other.cells[4] && self.cells[5] == other.cells[5] && self.cells[6] == other.cells[6]
            && self.cells[7] == other.cells[7] && self.cells[8] == other.cells[8];
        proof {
            if same {
                assert(self@ =~= other@);
            }
        }
        same
    }
}

impl Eq for Board {

}

impl vstd::std_specs::cmp::PartialEqSpecImpl for Board {
    open spec fn obeys_eq_spec() -> bool {
        true
    }

    open spec fn eq_spec(&self, other: &Board) -> bool {
        self@ == other@
    }
}

impl Board {
    /// The board holds each label once.
    pub open spec fn wf(&self) -> bool {
        is_grid(self@)
    }

    /// The solved board.
    pub fn goal() -> (board: Board)
        ensures
            board@ == goal_grid(),
            board.wf(),
    {
        let board = Board { cells: [1, 2, 3, 4, 5, 6, 7, 8, 0] };
        assert(board@ =~= goal_grid());
        board
    }

    /// Builds a board from its three rows.
    pub fn new(rows: [[u8; 3]; 3]) -> (board: Board)
        requires
            is_grid(rows_grid(rows)),
        ensures
            board@ == rows_grid(rows),
            board.wf(),
    {
        let board = Board {
            cells: [
                rows[0][0],
                rows[0][1],
                rows[0][2],
                rows[1][0],
                rows[1][1],
                rows[1][2],
                rows[2][0],
                rows[2][1],
                rows[2][2],
            ],
        };
        assert(board@ =~= rows_grid(rows));
        board
    }

    /// Builds a board from its three rows if they hold each of the labels
    /// 0..=8 once; `None` otherwise.
    pub fn try_new(rows: [[u8; 3]; 3]) -> (made: Option<Board>)
        ensures
            match made {
                Some(board) => is_grid(rows_grid(rows)) && board@ == rows_grid(rows),
                None => !is_grid(rows_grid(rows)),
            },
    {
        let cells: [u8; 9] = [
            rows[0][0],
            rows[0][1],
            rows[0][2],
            rows[1][0],
            rows[1][1],
            rows[1][2],
            rows[2][0],
            rows[2][1],
            rows[2][2],
        ];
        assert(cells@ =~= rows_grid(rows));
        let mut seen: [bool; 9] = [false, false, false, false, false, false, false, false, false];
        let mut i: usize = 0;
        while i < 9
            invariant
                i <= 9,
                cells@ == rows_grid(rows),
                forall|k: int| 0 <= k < i ==> #[trigger] cells@[k] < 9,
                forall|k: int, l: int| 0 <= k < l < i ==> cells@[k] != cells@[l],
                forall|v: int| 0 <= v < 9 ==> (#[trigger] seen@[v] <==> occurs(cells@, v, i as int)),
            decreases 9 - i,
        {
            let label: u8 = cells[i];
            if label >= 9 {
                return None;
            }
            if seen[label as usize] {
                proof {
                    let k: int = choose|k: int| 0 <= k < i && #[trigger] cells@[k] == label as int;
                    assert(cells@[k] == cells@[i as int]);
                }
                return None;
            }
            let ghost before = seen@;
            seen[label as usize] = true;
            proof {
                assert forall|v: int| 0 <= v < 9 implies (#[trigger] seen@[v] <==> occurs(
                    cells@,
                    v,
                    i + 1,
                )) by {
                    if v == label {
                        assert(cells@[i as int] == v);
                    } else {
                        assert(seen@[v] == before[v]);
                        if occurs(cells@, v, i + 1) {
                            let k: int = choose|k: int| 0 <= k < i + 1 && #[trigger] cells@[k] == v;
                            assert(k < i);
                        }
                        if occurs(cells@, v, i as int) {
                            let k: int = choose|k: int| 0 <= k < i && #[trigger] cells@[k] == v;
                            assert(0 <= k < i + 1 && cells@[k] == v);
                        }
                    }
                }
                assert forall|k: int, l: int| 0 <= k < l < i + 1 implies cells@[k] != cells@[l] by {
                    if l == i && cells@[k] == cells@[l] {
                        assert(occurs(cells@, label as int, i as int));
                    }
                }
            }
            i += 1;
        }
        Some(Board { cells })
    }

    /// The label in the given cell.
    pub fn value_at(&self, row: usize, col: usize) -> (label: u8)
        requires
            row < 3,
            col < 3,
        ensures
            label == self@[3 * row + col],
    {
        self.cells[3 * row + col]
    }

    /// Row and column of the cell that holds `label`.
    pub fn position(&self, label: u8) -> (at: (usize, usize))
        requires
            self.wf(),
            label < 9,
        ensures
            at.0 < 3,
            at.1 < 3,
            3 * at.0 + at.1 == cell_of(self@, label),
    {
        proof {
            lemma_cell_of(self@, label);
        }
        let mut i: usize = 0;
        while i < 8 && self.cells[i] != label
            invariant
                i <= 8,
                self.wf(),
                label < 9,
                forall|k: int| 0 <= k < i ==> self@[k] != label,
            decreases 8 - i,
        {
            i += 1;
        }
        (i / 3, i % 3)
    }

    /// The board's code: valid boards are equal exactly when their codes
    /// are.
    pub fn code(&self) -> (code: u32)
        requires
            self.wf(),
        ensures
            code == grid_code(self@),
            code < CODE_LIMIT,
    {
        proof {
            lemma_code(self@, self@);
        }
        let mut code: u32 = self.cells[8] as u32;
        code = code * 9 + self.cells[7] as u32;
        code = code * 9 + self.cells[6] as u32;
        code = code * 9 + self.cells[5] as u32;
        code = code * 9 + self.cells[4] as u32;
        code = code * 9 + self.cells[3] as u32;
        code = code * 9 + self.cells[2] as u32;
        code = code * 9 + self.cells[1] as u32;
        code = code * 9 + self.cells[0] as u32;
        code
    }

    /// Slides the blank one step. Returns the new board, or `None` when the
    /// blank is on the edge that the move would cross. The board it is
    /// called on stays as it is.
    pub fn apply(&self, direction: Direction) -> (moved: Option<Board>)
        requires
            self.wf(),
        ensures
            match moved {
                Some(next) => next.wf() && slide(self@, direction) == Some(next@),
                None => slide(self@, direction) is None,
            },
    {
        proof {
            lemma_slide(self@, direction);
        }
        let at: (usize, usize) = self.position(0);
        let p: usize = 3 * at.0 + at.1;
        let q: usize = match direction {
            Direction::Left => {
                if at.1 == 0 {
                    return None;
                }
                p - 1
            },
            Direction::Right => {
                if at.1 == 2 {
                    return None;
                }
                p + 1
            },
            Direction::Up => {
                if at.0 == 0 {
                    return None;
                }
                p - 3
            },
            Direction::Down => {
                if at.0 == 2 {
                    return None;
                }
                p + 3
            },
        };
        let mut cells: [u8; 9] = self.cells;
        cells[p] = self.cells[q];
        cells[q] = 0;
        let next = Board { cells };
        assert(next@ =~= self@.update(p as int, self@[q as int]).update(q as int, 0u8));
        Some(next)
    }

    /// Makes the moves of `plan` in order. Returns the board reached, or
    /// `None` if one of the moves is blocked.
    pub fn follow(&self, plan: &[Direction]) -> (end: Option<Board>)
        requires
            self.wf(),
        ensures
            match end {
                Some(board) => board.wf() && replay(self@, plan@) == Some(board@),
                None => replay(self@, plan@) is None,
            },
    {
        let mut current: Board = *self;
        let mut i: usize = 0;
        assert(plan@.skip(0) =~= plan@);
        while i < plan.len()
            invariant
                i <= plan.len(),
                current.wf(),
                replay(self@, plan@) == replay(current@, plan@.skip(i as int)),
            decreases plan.len() - i,
        {
            proof {
                assert(plan@.skip(i as int)[0] == plan@[i as int]);
                assert(plan@.skip(i as int).drop_first() =~= plan@.skip(i + 1));
            }
            match current.apply(plan[i]) {
                None => {
                    return None;
                },
                Some(next) => {
                    current = next;
                },
            }
            i += 1;
        }
        Some(current)
    }

    /// Whether `plan` leads from this board to the solved board without a
    /// blocked move.
    pub fn is_valid_plan(&self, plan: &[Direction]) -> (valid: bool)
        requires
            self.wf(),
        ensures
            valid == solves(self@, plan@),
    {
        match self.follow(plan) {
            Some(end) => end == Board::goal(),
            None => false,
        }
    }
}

} // verus!
