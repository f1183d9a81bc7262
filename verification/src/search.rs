//! Best-first search for a shortest plan.
//!
//! The engine keeps a frontier of boards to look at, the lowest cost found
//! so far for every board it has met, the move by which that cost was
//! reached, and the set of boards it has expanded. Maps are keyed by the
//! board's code. The frontier is lazy: a board whose cost improves gets a new
//! entry, and entries that have been overtaken stay until they are popped.

use vstd::multiset::Multiset;
use vstd::prelude::*;
use vstd::relations::injective_on;
use vstd::set_lib::lemma_len_subset;
use vstd::set_lib::lemma_map_size;
use std::collections::HashMap;
use std::collections::HashSet;
use std::time::Duration;
use std::time::Instant;
use crate::board::Board;
use crate::board::Direction;
use crate::board::CODE_LIMIT;
use crate::board::goal_grid;
use crate::board::grid_with_code;
use crate::board::lemma_reachable;
use crate::board::reachable_grids;
use crate::board::grid_code;
use crate::board::is_grid;
use crate::board::is_shortest_plan;
use crate::board::lemma_code;
use crate::board::lemma_replay;
use crate::board::lemma_replay_push;
use crate::board::lemma_slide;
use crate::board::replay;
use crate::board::slide;
use crate::board::solves;
use crate::board::unsolvable;
use crate::heuristics::Heuristic;
use crate::heuristics::lemma_parts;
use crate::heuristics::lemma_step;
use crate::min_heap::MinHeap;
use crate::min_heap::is_least;

verus! {

/// Statistics of one search.
pub struct Stats {
    /// Number of distinct boards expanded during the search.
    pub expanded: usize,
    /// Total time spent in the search.
    pub runtime: Duration,
}

impl Stats {
    /// Creates a new `Stats` with the given count and runtime.
    pub fn new(expanded: usize, runtime: Duration) -> (stats: Stats)
        ensures
            stats.expanded == expanded,
            stats.runtime == runtime,
    {
        Stats { expanded, runtime }
    }
}

/// The key under which a grid is filed.
spec fn key(g: Seq<u8>) -> u32 {
    grid_code(g) as u32
}

/// Keys stay below the limit, and valid grids with the same key are the
/// same grid.
proof fn lemma_key(a: Seq<u8>, b: Seq<u8>)
    requires
        is_grid(a),
        is_grid(b),
    ensures
        key(a) == grid_code(a),
        key(a) < CODE_LIMIT,
        key(a) == key(b) ==> a == b,
{
    lemma_code(a, b);
    lemma_code(b, a);
}

/// A plan of `n` moves leads from `init` to `x`.
spec fn reached(init: Seq<u8>, x: Seq<u8>, n: int) -> bool {
    exists|q: Seq<Direction>| (#[trigger] replay(init, q)) == Some(x) && q.len() == n
}

/// No plan from `init` to `x` has fewer than `n` moves.
spec fn shortest_to(init: Seq<u8>, x: Seq<u8>, n: int) -> bool {
    forall|q: Seq<Direction>| (#[trigger] replay(init, q)) == Some(x) ==> n <= q.len()
}

/// The frontier holds an entry for grid `g` at a priority of `bound` at
/// most.
spec fn queued(f: Multiset<(Board, u32)>, g: Seq<u8>, bound: int) -> bool {
    exists|b: Board, p: u32| #[trigger] f.count((b, p)) > 0 && b@ == g && p <= bound
}

/// The frontier holds some entry at a priority of `bound` at most.
spec fn frontier_below(f: Multiset<(Board, u32)>, bound: int) -> bool {
    exists|b: Board, p: u32| #[trigger] f.count((b, p)) > 0 && p <= bound
}

/// Position of a direction in the order in which moves are tried.
spec fn dir_index(d: Direction) -> int {
    match d {
        Direction::Left => 0,
        Direction::Right => 1,
        Direction::Up => 2,
        Direction::Down => 3,
    }
}

/// Selects the frontier entries whose board is already expanded.
spec fn is_stale(expanded: Set<u32>) -> spec_fn((Board, u32)) -> bool {
    |e: (Board, u32)| expanded.contains(key(e.0@))
}

/// The engine's bookkeeping, as mathematical values.
struct Book {
    cost: Map<u32, u32>,
    pred: Map<u32, (Board, Direction)>,
    expanded: Set<u32>,
    frontier: Multiset<(Board, u32)>,
}

impl Book {
    /// Every frontier entry is for a valid board with a known cost, and was
    /// filed at no less than that cost plus the estimate.
    #[verifier::opaque]
    spec fn entries_ok(self, h: Heuristic) -> bool {
        forall|b: Board, p: u32| #[trigger]
            self.frontier.count((b, p)) > 0 ==> {
                &&& b.wf()
                &&& self.cost.contains_key(key(b@))
                &&& (self.cost[key(b@)] == 0 || self.cost[key(b@)] + h.estimate_spec(b@) <= p)
            }
    }

    /// Costs are bounded by the number of expanded boards.
    #[verifier::opaque]
    spec fn costs_ok(self) -> bool {
        &&& self.expanded.finite()
        &&& forall|k: u32| #[trigger]
            self.expanded.contains(k) ==> k < CODE_LIMIT && self.cost.contains_key(k)
                && self.cost[k] < self.expanded.len()
        &&& forall|k: u32| #[trigger]
            self.cost.contains_key(k) ==> self.cost[k] <= self.expanded.len()
    }

    /// The initial grid has cost 0 and is expanded or on the frontier.
    #[verifier::opaque]
    spec fn start_ok(self, init: Seq<u8>, h: Heuristic) -> bool {
        &&& is_grid(init)
        &&& self.cost.contains_key(key(init))
        &&& self.cost[key(init)] == 0
        &&& (self.expanded.contains(key(init)) || queued(
            self.frontier,
            init,
            h.estimate_spec(init),
        ))
    }

    /// The recorded predecessor of `k` is an expanded board one move away
    /// whose cost is one less.
    spec fn linked(self, k: u32) -> bool {
        let parent = self.pred[k].0;
        let d = self.pred[k].1;
        &&& self.pred.contains_key(k)
        &&& parent.wf()
        &&& self.expanded.contains(key(parent@))
        &&& self.cost[k] == self.cost[key(parent@)] + 1
        &&& slide(parent@, d) is Some
        &&& key(slide(parent@, d).unwrap()) == k
    }

    /// Every board with a cost, but for the initial one, has a predecessor.
    #[verifier::opaque]
    spec fn preds_ok(self, init: Seq<u8>) -> bool {
        forall|k: u32| #[trigger] self.cost.contains_key(k) && k != key(init) ==> self.linked(k)
    }

    /// Every cost is the length of some plan from the initial grid.
    #[verifier::opaque]
    spec fn reached_ok(self, init: Seq<u8>) -> bool {
        forall|x: Seq<u8>|
            is_grid(x) && #[trigger] self.cost.contains_key(key(x)) ==> reached(
                init,
                x,
                self.cost[key(x)] as int,
            )
    }

    /// The neighbour of `y` in direction `d` is expanded, or it is on the
    /// frontier at its cost plus estimate, and that cost is at most one more
    /// than the cost of `y`.
    spec fn settled(self, h: Heuristic, y: Seq<u8>, d: Direction) -> bool {
        let c = slide(y, d).unwrap();
        ||| self.expanded.contains(key(c))
        ||| {
            &&& self.cost.contains_key(key(c))
            &&& self.cost[key(c)] <= self.cost[key(y)] + 1
            &&& queued(self.frontier, c, self.cost[key(c)] + h.estimate_spec(c))
        }
    }

    /// All moves out of expanded boards are settled, except those out of `s`
    /// in the directions from the `n`-th on, which are still to be tried.
    #[verifier::opaque]
    spec fn closed_ok(self, h: Heuristic, s: Seq<u8>, n: int) -> bool {
        forall|y: Seq<u8>, d: Direction|
            is_grid(y) && self.expanded.contains(key(y)) && (#[trigger] slide(y, d)) is Some && !(y
                == s && dir_index(d) >= n) ==> self.settled(h, y, d)
    }

    /// Every expanded key is the code of a valid grid.
    #[verifier::opaque]
    spec fn named_ok(self) -> bool {
        forall|k: u32| #[trigger]
            self.expanded.contains(k) ==> is_grid(grid_with_code(k as int)) && key(
                grid_with_code(k as int),
            ) == k
    }

    /// With an estimator that leads to shortest plans, the cost of an
    /// expanded board is the length of a shortest plan to it.
    #[verifier::opaque]
    spec fn best_ok(self, init: Seq<u8>, h: Heuristic) -> bool {
        h != Heuristic::Manhattan ==> forall|y: Seq<u8>|
            is_grid(y) && #[trigger] self.expanded.contains(key(y)) ==> shortest_to(
                init,
                y,
                self.cost[key(y)] as int,
            )
    }

    /// What holds of the bookkeeping while the board `s` is being expanded
    /// and its first `n` directions have been tried. With `n` at 4 this is
    /// what holds between expansions.
    spec fn inv_at(self, init: Seq<u8>, h: Heuristic, s: Seq<u8>, n: int) -> bool {
        &&& self.entries_ok(h)
        &&& self.costs_ok()
        &&& self.start_ok(init, h)
        &&& self.preds_ok(init)
        &&& self.reached_ok(init)
        &&& self.closed_ok(h, s, n)
        &&& !self.expanded.contains(key(goal_grid()))
        &&& self.best_ok(init, h)
        &&& self.named_ok()
    }

    /// What the walk back along the predecessors relies on.
    spec fn traceable(self, init: Seq<u8>) -> bool {
        &&& is_grid(init)
        &&& self.cost.contains_key(key(init))
        &&& self.cost[key(init)] == 0
        &&& self.preds_ok(init)
        &&& forall|k: u32| #[trigger] self.expanded.contains(k) ==> self.cost.contains_key(k)
    }

    /// What counting the expanded boards relies on.
    spec fn countable(self, init: Seq<u8>) -> bool {
        &&& is_grid(init)
        &&& self.expanded.finite()
        &&& self.named_ok()
        &&& self.reached_ok(init)
        &&& forall|k: u32| #[trigger] self.expanded.contains(k) ==> self.cost.contains_key(k)
    }

    /// Number of frontier entries whose board is already expanded.
    spec fn stale(self) -> nat {
        self.frontier.filter(is_stale(self.expanded)).len()
    }
}

/// Picks a frontier entry that shows `queued`.
proof fn lemma_queued_witness(f: Multiset<(Board, u32)>, g: Seq<u8>, bound: int) -> (e: (
    Board,
    u32,
))
    requires
        queued(f, g, bound),
    ensures
        f.count(e) > 0,
        e.0@ == g,
        e.1 <= bound,
{
    let (b, p) = choose|b: Board, p: u32| #[trigger] f.count((b, p)) > 0 && b@ == g && p <= bound;
    (b, p)
}

/// An entry on the frontier shows `queued` and `frontier_below` for every
/// bound from its priority up.
proof fn lemma_queued(f: Multiset<(Board, u32)>, b: Board, p: u32, bound: int)
    requires
        f.count((b, p)) > 0,
        p <= bound,
    ensures
        queued(f, b@, bound),
        frontier_below(f, bound),
{
}

/// A finite set of numbers below `n` has `n` members at most.
proof fn lemma_bounded_len(s: Set<u32>, n: u32)
    requires
        s.finite(),
        forall|k: u32| s.contains(k) ==> k < n,
    ensures
        s.len() <= n,
    decreases n,
{
    if n == 0 {
        assert(s =~= Set::<u32>::empty());
    } else {
        let top: u32 = (n - 1) as u32;
        let rest = s.remove(top);
        assert forall|k: u32| rest.contains(k) implies k < top by {
            assert(s.contains(k));
        }
        lemma_bounded_len(rest, top);
        if !s.contains(top) {
            assert(rest =~= s);
        }
    }
}

/// The bookkeeping at the start of a search.
proof fn lemma_start(book: Book, init: Board, h: Heuristic)
    requires
        init.wf(),
        book.cost == Map::<u32, u32>::empty().insert(key(init@), 0u32),
        book.pred == Map::<u32, (Board, Direction)>::empty(),
        book.expanded == Set::<u32>::empty(),
        book.frontier == Multiset::<(Board, u32)>::empty().insert((init, 0u32)),
    ensures
        book.inv_at(init@, h, init@, 4),
        book.expanded.len() == 0,
{
    reveal(Book::entries_ok);
    reveal(Book::costs_ok);
    reveal(Book::start_ok);
    reveal(Book::preds_ok);
    reveal(Book::reached_ok);
    reveal(Book::closed_ok);
    reveal(Book::best_ok);
    reveal(Book::named_ok);
    lemma_parts(h, init@);
    assert(book.frontier.count((init, 0u32)) > 0);
    lemma_queued(book.frontier, init, 0u32, h.estimate_spec(init@));
    assert(book.entries_ok(h)) by {
        assert forall|b: Board, p: u32| #[trigger] book.frontier.count((b, p)) > 0 implies b.wf()
            && book.cost.contains_key(key(b@)) && book.cost[key(b@)] == 0 by {
            assert((b, p) == (init, 0u32));
        }
    }
    assert(book.reached_ok(init@)) by {
        assert forall|x: Seq<u8>| is_grid(x) && #[trigger] book.cost.contains_key(
            key(x),
        ) implies reached(init@, x, book.cost[key(x)] as int) by {
            lemma_key(x, init@);
            let q = Seq::<Direction>::empty();
            assert(replay(init@, q) == Some(x));
        }
    }
}

/// With the frontier empty, every grid that some plan leads to is expanded.
proof fn lemma_all_expanded(book: Book, init: Seq<u8>, h: Heuristic, q: Seq<Direction>)
    requires
        book.inv_at(init, h, init, 4),
        book.frontier.len() == 0,
        replay(init, q) is Some,
    ensures
        is_grid(replay(init, q).unwrap()),
        book.expanded.contains(key(replay(init, q).unwrap())),
    decreases q.len(),
{
    reveal(Book::start_ok);
    reveal(Book::closed_ok);
    lemma_replay(init, q);
    if q.len() == 0 {
        if !book.expanded.contains(key(init)) {
            let e = lemma_queued_witness(book.frontier, init, h.estimate_spec(init));
        }
    } else {
        let front = q.drop_last();
        let d = q.last();
        assert(q =~= front.push(d));
        lemma_replay_push(init, front, d);
        lemma_all_expanded(book, init, h, front);
        let y = replay(init, front).unwrap();
        assert(slide(y, d) is Some);
        assert(dir_index(d) < 4);
        assert(book.settled(h, y, d));
        let c = slide(y, d).unwrap();
        if !book.expanded.contains(key(c)) {
            let e = lemma_queued_witness(
                book.frontier,
                c,
                book.cost[key(c)] + h.estimate_spec(c),
            );
        }
    }
}

/// With the frontier empty and the solved grid not expanded, no plan
/// solves the initial grid.
proof fn lemma_exhausted(book: Book, init: Seq<u8>, h: Heuristic)
    requires
        book.inv_at(init, h, init, 4),
        book.frontier.len() == 0,
    ensures
        unsolvable(init),
{
    assert forall|q: Seq<Direction>| !solves(init, q) by {
        if solves(init, q) {
            lemma_all_expanded(book, init, h, q);
        }
    }
}

/// Along any plan to a grid that is not expanded yet, the frontier holds an
/// entry whose priority is at most the plan's length plus the estimate's
/// tile part plus one.
proof fn lemma_frontier(book: Book, init: Seq<u8>, h: Heuristic, q: Seq<Direction>, x: Seq<u8>)
    requires
        book.inv_at(init, h, init, 4),
        h != Heuristic::Manhattan,
        replay(init, q) == Some(x),
        !book.expanded.contains(key(x)),
    ensures
        is_grid(x),
        frontier_below(book.frontier, q.len() + h.tiles_part(x) + 1),
    decreases q.len(),
{
    reveal(Book::start_ok);
    reveal(Book::closed_ok);
    reveal(Book::best_ok);
    reveal(Book::named_ok);
    lemma_replay(init, q);
    lemma_parts(h, x);
    if q.len() == 0 {
        let e = lemma_queued_witness(book.frontier, init, h.estimate_spec(init));
        lemma_queued(book.frontier, e.0, e.1, q.len() + h.tiles_part(x) + 1);
    } else {
        let front = q.drop_last();
        let d = q.last();
        assert(q =~= front.push(d));
        lemma_replay_push(init, front, d);
        let y = replay(init, front).unwrap();
        lemma_replay(init, front);
        lemma_parts(h, y);
        lemma_step(h, y, d);
        if book.expanded.contains(key(y)) {
            assert(shortest_to(init, y, book.cost[key(y)] as int));
            assert(book.cost[key(y)] <= front.len());
            assert(dir_index(d) < 4);
            assert(book.settled(h, y, d));
            let e = lemma_queued_witness(
                book.frontier,
                x,
                book.cost[key(x)] + h.estimate_spec(x),
            );
            lemma_queued(book.frontier, e.0, e.1, q.len() + h.tiles_part(x) + 1);
        } else {
            lemma_frontier(book, init, h, front, y);
            let bound: int = front.len() + h.tiles_part(y) + 1;
            let (b, p) = choose|b: Board, p: u32| #[trigger]
                book.frontier.count((b, p)) > 0 && p <= bound;
            lemma_queued(book.frontier, b, p, q.len() + h.tiles_part(x) + 1);
        }
    }
}

/// The arithmetic at the heart of the search: an entry popped at least
/// priority, for a board reached at `cost`, cannot have a cost above the
/// length of any plan to that board.
proof fn lemma_first_pop_one(
    f: Multiset<(Board, u32)>,
    init: Seq<u8>,
    h: Heuristic,
    s: Board,
    p: u32,
    cost: int,
    q0: Seq<Direction>,
    q: Seq<Direction>,
)
    requires
        is_grid(init),
        h != Heuristic::Manhattan,
        is_least(f, (s, p)),
        cost == 0 || cost + h.estimate_spec(s@) <= p,
        replay(init, q0) == Some(s@),
        q0.len() == cost,
        replay(init, q) == Some(s@),
        frontier_below(f, q.len() + h.tiles_part(s@) + 1),
    ensures
        cost <= q.len(),
{
    lemma_replay(init, q0);
    lemma_replay(init, q);
    lemma_parts(h, s@);
    let bound: int = q.len() + h.tiles_part(s@) + 1;
    let (b, pb) = choose|b: Board, pb: u32| #[trigger] f.count((b, pb)) > 0 && pb <= bound;
    assert(p <= pb);
    assert(cost <= q.len() + 1);
    assert(cost % 2 == q.len() % 2);
}

/// The first time a board is popped, its cost is the length of a shortest
/// plan to it.
proof fn lemma_first_pop(book: Book, init: Seq<u8>, h: Heuristic, s: Board, p: u32)
    requires
        book.inv_at(init, h, init, 4),
        h != Heuristic::Manhattan,
        is_least(book.frontier, (s, p)),
        !book.expanded.contains(key(s@)),
    ensures
        shortest_to(init, s@, book.cost[key(s@)] as int),
{
    let cost: int = book.cost[key(s@)] as int;
    assert(is_grid(init)) by {
        reveal(Book::start_ok);
    }
    assert(s.wf() && (cost == 0 || cost + h.estimate_spec(s@) <= p)) by {
        reveal(Book::entries_ok);
        assert(book.frontier.count((s, p)) > 0);
    }
    assert(reached(init, s@, cost)) by {
        reveal(Book::entries_ok);
        reveal(Book::reached_ok);
        assert(book.frontier.count((s, p)) > 0);
    }
    let q0 = choose|q0: Seq<Direction>| (#[trigger] replay(init, q0)) == Some(s@) && q0.len() == cost;
    assert forall|q: Seq<Direction>| (#[trigger] replay(init, q)) == Some(s@) implies cost
        <= q.len() by {
        lemma_frontier(book, init, h, q, s@);
        lemma_first_pop_one(book.frontier, init, h, s, p, cost, q0, q);
    }
}

/// Taking an entry out leaves the other entries as they were.
proof fn lemma_take_entries(old: Book, new: Book, h: Heuristic, s: Board, p: u32)
    requires
        old.entries_ok(h),
        new.cost == old.cost,
        new.frontier == old.frontier.remove((s, p)),
    ensures
        new.entries_ok(h),
{
    reveal(Book::entries_ok);
    assert forall|b: Board, pb: u32| #[trigger] new.frontier.count((b, pb)) > 0 implies {
        &&& b.wf()
        &&& new.cost.contains_key(key(b@))
        &&& (new.cost[key(b@)] == 0 || new.cost[key(b@)] + h.estimate_spec(b@) <= pb)
    } by {
        assert(old.frontier.count((b, pb)) > 0);
    }
}

/// Marking a board with a known cost expanded keeps the costs bounded by
/// the number of expanded boards.
proof fn lemma_take_costs(old: Book, new: Book, k: u32)
    requires
        old.costs_ok(),
        old.cost.contains_key(k),
        k < CODE_LIMIT,
        new.cost == old.cost,
        new.expanded == old.expanded.insert(k),
    ensures
        new.costs_ok(),
        new.expanded.finite(),
        new.expanded.len() <= CODE_LIMIT,
        old.expanded.contains(k) ==> new.expanded == old.expanded,
        !old.expanded.contains(k) ==> new.expanded.len() == old.expanded.len() + 1,
        forall|j: u32| #[trigger] new.expanded.contains(j) ==> new.cost.contains_key(j),
{
    reveal(Book::costs_ok);
    if old.expanded.contains(k) {
        assert(new.expanded =~= old.expanded);
    }
    assert forall|j: u32| new.expanded.contains(j) implies j < CODE_LIMIT by {}
    lemma_bounded_len(new.expanded, CODE_LIMIT);
}

/// After a pop the initial grid is expanded or still on the frontier.
proof fn lemma_take_start(old: Book, new: Book, init: Seq<u8>, h: Heuristic, s: Board, p: u32)
    requires
        old.start_ok(init, h),
        s.wf(),
        new.cost == old.cost,
        new.expanded == old.expanded.insert(key(s@)),
        new.frontier == old.frontier.remove((s, p)),
    ensures
        new.start_ok(init, h),
{
    reveal(Book::start_ok);
    if !old.expanded.contains(key(init)) {
        let e = lemma_queued_witness(old.frontier, init, h.estimate_spec(init));
        if e != (s, p) {
            assert(new.frontier.count(e) > 0);
            lemma_queued(new.frontier, e.0, e.1, h.estimate_spec(init));
        }
    }
}

/// A pop changes no predecessor.
proof fn lemma_take_preds(old: Book, new: Book, init: Seq<u8>, k: u32)
    requires
        old.preds_ok(init),
        new.cost == old.cost,
        new.pred == old.pred,
        new.expanded == old.expanded.insert(k),
    ensures
        new.preds_ok(init),
{
    reveal(Book::preds_ok);
    assert forall|j: u32| #[trigger] new.cost.contains_key(j) && j != key(init) implies new.linked(
        j,
    ) by {
        assert(old.linked(j));
    }
}

/// A pop changes no cost.
proof fn lemma_take_reached(old: Book, new: Book, init: Seq<u8>)
    requires
        old.reached_ok(init),
        new.cost == old.cost,
    ensures
        new.reached_ok(init),
{
    reveal(Book::reached_ok);
}

/// If the cost of the popped board is that of a shortest plan, this holds
/// of every expanded board after the pop.
proof fn lemma_take_best(old: Book, new: Book, init: Seq<u8>, h: Heuristic, s: Board)
    requires
        old.best_ok(init, h),
        s.wf(),
        h != Heuristic::Manhattan ==> shortest_to(init, s@, old.cost[key(s@)] as int),
        new.cost == old.cost,
        new.expanded == old.expanded.insert(key(s@)),
    ensures
        new.best_ok(init, h),
{
    reveal(Book::best_ok);
    if h != Heuristic::Manhattan {
        assert forall|y: Seq<u8>| is_grid(y) && #[trigger] new.expanded.contains(
            key(y),
        ) implies shortest_to(init, y, new.cost[key(y)] as int) by {
            lemma_key(y, s@);
        }
    }
}

/// After a pop all moves are settled but those out of the popped board.
proof fn lemma_take_closed(old: Book, new: Book, h: Heuristic, s: Board, p: u32)
    requires
        old.closed_ok(h, s@, 4),
        s.wf(),
        new.cost == old.cost,
        new.expanded == old.expanded.insert(key(s@)),
        new.frontier == old.frontier.remove((s, p)),
    ensures
        new.closed_ok(h, s@, 0),
{
    reveal(Book::closed_ok);
    assert forall|y: Seq<u8>, d: Direction|
        is_grid(y) && new.expanded.contains(key(y)) && (#[trigger] slide(y, d)) is Some && !(y
            == s@ && dir_index(d) >= 0) implies new.settled(h, y, d) by {
        assert(dir_index(d) >= 0);
        assert(dir_index(d) < 4);
        lemma_key(y, s@);
        assert(old.expanded.contains(key(y)));
        assert(old.settled(h, y, d));
        let c = slide(y, d).unwrap();
        if !old.expanded.contains(key(c)) {
            let bound: int = old.cost[key(c)] + h.estimate_spec(c);
            let e = lemma_queued_witness(old.frontier, c, bound);
            if e != (s, p) {
                assert(new.frontier.count(e) > 0);
                lemma_queued(new.frontier, e.0, e.1, bound);
            }
        }
    }
}

/// The key of a valid board is the code of a valid grid.
proof fn lemma_take_named(old: Book, new: Book, s: Board)
    requires
        old.named_ok(),
        s.wf(),
        new.expanded == old.expanded.insert(key(s@)),
    ensures
        new.named_ok(),
{
    reveal(Book::named_ok);
    lemma_key(s@, s@);
    assert(is_grid(grid_with_code(key(s@) as int)));
    lemma_key(grid_with_code(key(s@) as int), s@);
}

/// The expanded boards are as many as their keys, and all of them can be
/// reached. If every grid that can be reached is expanded, they are exactly
/// as many as those.
proof fn lemma_count(book: Book, init: Seq<u8>)
    requires
        book.countable(init),
    ensures
        reachable_grids(init).finite(),
        book.expanded.len() <= reachable_grids(init).len(),
        (forall|x: Seq<u8>| #[trigger]
            reachable_grids(init).contains(x) ==> book.expanded.contains(key(x)))
            ==> book.expanded.len() == reachable_grids(init).len(),
{
    reveal(Book::named_ok);
    reveal(Book::reached_ok);
    lemma_reachable(init);
    let r = reachable_grids(init);
    let name = |k: u32| grid_with_code(k as int);
    let grids = book.expanded.map(name);
    assert(injective_on(name, book.expanded)) by {
        assert forall|k1: u32, k2: u32|
            book.expanded.contains(k1) && book.expanded.contains(k2) && #[trigger] name(k1)
                == #[trigger] name(k2) implies k1 == k2 by {
            assert(key(name(k1)) == k1);
            assert(key(name(k2)) == k2);
        }
    }
    lemma_map_size(book.expanded, grids, name);
    assert forall|y: Seq<u8>| grids.contains(y) implies r.contains(y) by {
        let k = choose|k: u32| book.expanded.contains(k) && y == name(k);
        assert(book.cost.contains_key(key(y)));
        assert(reached(init, y, book.cost[key(y)] as int));
    }
    lemma_len_subset(grids, r);
    if forall|x: Seq<u8>| #[trigger] r.contains(x) ==> book.expanded.contains(key(x)) {
        assert forall|x: Seq<u8>| r.contains(x) implies grids.contains(x) by {
            let k = key(x);
            assert(book.expanded.contains(k));
            lemma_key(name(k), x);
            assert(x == name(k));
        }
        assert(grids =~= r);
    }
}

/// Popping an entry whose board was expanded before leaves one stale entry
/// less.
proof fn lemma_take_stale(old: Book, new: Book, s: Board, p: u32)
    requires
        old.frontier.count((s, p)) > 0,
        old.expanded.contains(key(s@)),
        new.expanded == old.expanded,
        new.frontier == old.frontier.remove((s, p)),
    ensures
        new.stale() + 1 == old.stale(),
{
    let keep = is_stale(old.expanded);
    assert(keep((s, p)));
    assert(new.frontier.filter(keep) =~= old.frontier.filter(keep).remove((s, p)));
    assert(old.frontier.filter(keep).count((s, p)) > 0);
}

/// Whichever board is expanded, no move out of a board is pending at the
/// fourth direction.
proof fn lemma_closed_any(book: Book, h: Heuristic, a: Seq<u8>, b: Seq<u8>)
    requires
        book.closed_ok(h, a, 4),
    ensures
        book.closed_ok(h, b, 4),
{
    reveal(Book::closed_ok);
    assert forall|y: Seq<u8>, d: Direction|
        is_grid(y) && book.expanded.contains(key(y)) && (#[trigger] slide(y, d)) is Some && !(y
            == b && dir_index(d) >= 4) implies book.settled(h, y, d) by {
        assert(dir_index(d) < 4);
    }
}

/// What is known of a board that is popped at least priority.
proof fn lemma_take_facts(old: Book, init: Seq<u8>, h: Heuristic, s: Board, p: u32)
    requires
        old.inv_at(init, h, init, 4),
        is_least(old.frontier, (s, p)),
    ensures
        s.wf(),
        key(s@) < CODE_LIMIT,
        s@ != goal_grid() ==> key(s@) != key(goal_grid()),
        old.cost.contains_key(key(s@)),
        is_grid(init),
        old.cost.contains_key(key(init)),
        old.cost[key(init)] == 0,
        h != Heuristic::Manhattan ==> shortest_to(init, s@, old.cost[key(s@)] as int),
{
    assert(s.wf() && old.cost.contains_key(key(s@))) by {
        reveal(Book::entries_ok);
        assert(old.frontier.count((s, p)) > 0);
    }
    assert(is_grid(init) && old.cost.contains_key(key(init)) && old.cost[key(init)] == 0) by {
        reveal(Book::start_ok);
    }
    lemma_key(s@, goal_grid());
    if h != Heuristic::Manhattan {
        if old.expanded.contains(key(s@)) {
            assert(shortest_to(init, s@, old.cost[key(s@)] as int)) by {
                reveal(Book::best_ok);
            }
        } else {
            lemma_first_pop(old, init, h, s, p);
        }
    }
}

/// Popping an entry of least priority and marking its board expanded.
proof fn lemma_take(old: Book, new: Book, init: Seq<u8>, h: Heuristic, s: Board, p: u32)
    requires
        old.inv_at(init, h, init, 4),
        is_least(old.frontier, (s, p)),
        new.cost == old.cost,
        new.pred == old.pred,
        new.expanded == old.expanded.insert(key(s@)),
        new.frontier == old.frontier.remove((s, p)),
    ensures
        s.wf(),
        new.cost.contains_key(key(s@)),
        new.traceable(init),
        new.countable(init),
        new.expanded.finite(),
        new.expanded.len() <= CODE_LIMIT,
        s@ != goal_grid() ==> new.inv_at(init, h, s@, 0),
        h != Heuristic::Manhattan ==> shortest_to(init, s@, new.cost[key(s@)] as int),
        advanced(old, new),
{
    lemma_take_facts(old, init, h, s, p);
    lemma_take_entries(old, new, h, s, p);
    lemma_take_costs(old, new, key(s@));
    lemma_take_start(old, new, init, h, s, p);
    lemma_take_preds(old, new, init, key(s@));
    lemma_take_reached(old, new, init);
    lemma_take_best(old, new, init, h, s);
    lemma_take_named(old, new, s);
    lemma_closed_any(old, h, init, s@);
    lemma_take_closed(old, new, h, s, p);
    if old.expanded.contains(key(s@)) {
        assert(old.frontier.count((s, p)) > 0);
        lemma_take_stale(old, new, s, p);
    }
}

/// After the last direction, nothing is left to be tried.
proof fn lemma_finish(book: Book, init: Seq<u8>, h: Heuristic, s: Seq<u8>)
    requires
        book.inv_at(init, h, s, 4),
    ensures
        book.inv_at(init, h, init, 4),
{
    lemma_closed_any(book, h, s, init);
}

/// A direction in which the board being expanded has no neighbour, or an
/// expanded one, needs no bookkeeping.
proof fn lemma_relax_skip(book: Book, init: Seq<u8>, h: Heuristic, s: Seq<u8>, d: Direction)
    requires
        book.inv_at(init, h, s, dir_index(d)),
        slide(s, d) is None || book.expanded.contains(key(slide(s, d).unwrap())),
    ensures
        book.inv_at(init, h, s, dir_index(d) + 1),
{
    reveal(Book::closed_ok);
    let n = dir_index(d);
    assert forall|y: Seq<u8>, e: Direction|
        is_grid(y) && book.expanded.contains(key(y)) && (#[trigger] slide(y, e)) is Some && !(y
            == s && dir_index(e) >= n + 1) implies book.settled(h, y, e) by {
        if y == s && dir_index(e) >= n {
            assert(e == d);
        }
    }
}

/// Filing one more frontier entry for the neighbour `c` of `s`, at its
/// cost, which is known and no more than one above that of `s`.
proof fn lemma_relax_announce(
    old: Book,
    new: Book,
    init: Seq<u8>,
    h: Heuristic,
    s: Seq<u8>,
    d: Direction,
    c: Board,
)
    requires
        old.inv_at(init, h, s, dir_index(d)),
        is_grid(s),
        old.expanded.contains(key(s)),
        slide(s, d) == Some(c@),
        c.wf(),
        !old.expanded.contains(key(c@)),
        old.cost.contains_key(key(c@)),
        old.cost[key(c@)] <= old.cost[key(s)] + 1,
        new.cost == old.cost,
        new.pred == old.pred,
        new.expanded == old.expanded,
        new.frontier == old.frontier.insert(
            (c, (old.cost[key(c@)] + h.estimate_spec(c@)) as u32),
        ),
        old.cost[key(c@)] + h.estimate_spec(c@) <= u32::MAX,
    ensures
        new.inv_at(init, h, s, dir_index(d) + 1),
        new.stale() == old.stale(),
{
    reveal(Book::entries_ok);
    reveal(Book::costs_ok);
    reveal(Book::start_ok);
    reveal(Book::preds_ok);
    reveal(Book::reached_ok);
    reveal(Book::closed_ok);
    reveal(Book::best_ok);
    reveal(Book::named_ok);
    let n = dir_index(d);
    let prio: u32 = (old.cost[key(c@)] + h.estimate_spec(c@)) as u32;
    lemma_parts(h, c@);
    assert(new.frontier.count((c, prio)) > 0);
    assert forall|b: Board, pb: u32| old.frontier.count((b, pb)) > 0 implies new.frontier.count(
        (b, pb),
    ) > 0 by {}
    assert(new.entries_ok(h)) by {
        assert forall|b: Board, pb: u32| #[trigger] new.frontier.count((b, pb)) > 0 implies {
            &&& b.wf()
            &&& new.cost.contains_key(key(b@))
            &&& (new.cost[key(b@)] == 0 || new.cost[key(b@)] + h.estimate_spec(b@) <= pb)
        } by {
            if (b, pb) != (c, prio) {
                assert(old.frontier.count((b, pb)) > 0);
            }
        }
    }
    assert(new.start_ok(init, h)) by {
        if !old.expanded.contains(key(init)) {
            let e = lemma_queued_witness(old.frontier, init, h.estimate_spec(init));
            assert(new.frontier.count(e) > 0);
            lemma_queued(new.frontier, e.0, e.1, h.estimate_spec(init));
        }
    }
    assert(new.preds_ok(init)) by {
        assert forall|k: u32| #[trigger] new.cost.contains_key(k) && k != key(init) implies new.linked(
            k,
        ) by {
            assert(old.linked(k));
        }
    }
    assert(new.closed_ok(h, s, n + 1)) by {
        assert forall|y: Seq<u8>, e: Direction|
            is_grid(y) && new.expanded.contains(key(y)) && (#[trigger] slide(y, e)) is Some && !(y
                == s && dir_index(e) >= n + 1) implies new.settled(h, y, e) by {
            let x = slide(y, e).unwrap();
            if y == s && dir_index(e) >= n {
                assert(e == d);
                lemma_queued(new.frontier, c, prio, new.cost[key(x)] + h.estimate_spec(x));
            } else {
                assert(old.settled(h, y, e));
                if !old.expanded.contains(key(x)) {
                    let bound: int = old.cost[key(x)] + h.estimate_spec(x);
                    let w = lemma_queued_witness(old.frontier, x, bound);
                    assert(new.frontier.count(w) > 0);
                    lemma_queued(new.frontier, w.0, w.1, bound);
                }
            }
        }
    }
    assert(new.best_ok(init, h));
    let keep = is_stale(old.expanded);
    assert(!keep((c, prio)));
    assert(new.frontier.filter(keep) =~= old.frontier.filter(keep));
}

/// Recording a lower cost for the neighbour `c` of `s`, with `s` as its
/// predecessor, and filing a frontier entry for it.
proof fn lemma_relax_improve(
    old: Book,
    new: Book,
    init: Seq<u8>,
    h: Heuristic,
    s: Board,
    d: Direction,
    c: Board,
)
    requires
        old.inv_at(init, h, s@, dir_index(d)),
        s.wf(),
        old.expanded.contains(key(s@)),
        slide(s@, d) == Some(c@),
        c.wf(),
        !old.expanded.contains(key(c@)),
        old.cost.contains_key(key(c@)) ==> old.cost[key(c@)] > old.cost[key(s@)] + 1,
        old.cost[key(s@)] + 1 + h.estimate_spec(c@) <= u32::MAX,
        new.cost == old.cost.insert(key(c@), (old.cost[key(s@)] + 1) as u32),
        new.pred == old.pred.insert(key(c@), (s, d)),
        new.expanded == old.expanded,
        new.frontier == old.frontier.insert(
            (c, (old.cost[key(s@)] + 1 + h.estimate_spec(c@)) as u32),
        ),
    ensures
        new.inv_at(init, h, s@, dir_index(d) + 1),
        new.stale() == old.stale(),
{
    reveal(Book::entries_ok);
    reveal(Book::costs_ok);
    reveal(Book::start_ok);
    reveal(Book::preds_ok);
    reveal(Book::reached_ok);
    reveal(Book::closed_ok);
    reveal(Book::best_ok);
    reveal(Book::named_ok);
    let n = dir_index(d);
    let kc = key(c@);
    let ks = key(s@);
    let cost: u32 = (old.cost[ks] + 1) as u32;
    let prio: u32 = (old.cost[ks] + 1 + h.estimate_spec(c@)) as u32;
    lemma_parts(h, c@);
    lemma_key(c@, s@);
    lemma_key(c@, init);
    assert(kc != ks);
    assert(kc != key(init));
    assert(new.frontier.count((c, prio)) > 0);
    assert forall|b: Board, pb: u32| old.frontier.count((b, pb)) > 0 implies new.frontier.count(
        (b, pb),
    ) > 0 by {}
    assert(new.entries_ok(h)) by {
        assert forall|b: Board, pb: u32| #[trigger] new.frontier.count((b, pb)) > 0 implies {
            &&& b.wf()
            &&& new.cost.contains_key(key(b@))
            &&& (new.cost[key(b@)] == 0 || new.cost[key(b@)] + h.estimate_spec(b@) <= pb)
        } by {
            if (b, pb) != (c, prio) {
                assert(old.frontier.count((b, pb)) > 0);
                lemma_key(b@, c@);
            }
        }
    }
    assert(new.costs_ok());
    assert(new.start_ok(init, h)) by {
        if !old.expanded.contains(key(init)) {
            let e = lemma_queued_witness(old.frontier, init, h.estimate_spec(init));
            assert(new.frontier.count(e) > 0);
            lemma_queued(new.frontier, e.0, e.1, h.estimate_spec(init));
        }
    }
    assert(new.preds_ok(init)) by {
        assert forall|k: u32| #[trigger] new.cost.contains_key(k) && k != key(init) implies new.linked(
            k,
        ) by {
            if k != kc {
                assert(old.linked(k));
            }
        }
    }
    assert(new.reached_ok(init)) by {
        assert forall|x: Seq<u8>| is_grid(x) && #[trigger] new.cost.contains_key(
            key(x),
        ) implies reached(init, x, new.cost[key(x)] as int) by {
            lemma_key(x, c@);
            if key(x) == kc {
                assert(reached(init, s@, old.cost[ks] as int));
                let q = choose|q: Seq<Direction>| (#[trigger] replay(init, q)) == Some(s@)
                    && q.len() == old.cost[ks];
                lemma_replay_push(init, q, d);
                assert(replay(init, q.push(d)) == Some(x));
            } else {
                assert(reached(init, x, old.cost[key(x)] as int));
            }
        }
    }
    assert(new.closed_ok(h, s@, n + 1)) by {
        assert forall|y: Seq<u8>, e: Direction|
            is_grid(y) && new.expanded.contains(key(y)) && (#[trigger] slide(y, e)) is Some && !(y
                == s@ && dir_index(e) >= n + 1) implies new.settled(h, y, e) by {
            let x = slide(y, e).unwrap();
            lemma_slide(y, e);
            lemma_key(x, c@);
            lemma_key(y, c@);
            if y == s@ && dir_index(e) >= n {
                assert(e == d);
                lemma_queued(new.frontier, c, prio, new.cost[key(x)] + h.estimate_spec(x));
            } else {
                assert(old.settled(h, y, e));
                if !old.expanded.contains(key(x)) {
                    if key(x) == kc {
                        lemma_queued(new.frontier, c, prio, new.cost[key(x)] + h.estimate_spec(x));
                    } else {
                        let bound: int = old.cost[key(x)] + h.estimate_spec(x);
                        let w = lemma_queued_witness(old.frontier, x, bound);
                        assert(new.frontier.count(w) > 0);
                        lemma_queued(new.frontier, w.0, w.1, bound);
                    }
                }
            }
        }
    }
    assert(new.best_ok(init, h)) by {
        if h != Heuristic::Manhattan {
            assert forall|y: Seq<u8>| is_grid(y) && #[trigger] new.expanded.contains(
                key(y),
            ) implies shortest_to(init, y, new.cost[key(y)] as int) by {
                assert(shortest_to(init, y, old.cost[key(y)] as int));
            }
        }
    }
    let keep = is_stale(old.expanded);
    assert(!keep((c, prio)));
    assert(new.frontier.filter(keep) =~= old.frontier.filter(keep));
}

/// One more board is expanded, or the same boards are and one stale frontier
/// entry is gone.
spec fn advanced(old: Book, new: Book) -> bool {
    ||| new.expanded.len() == old.expanded.len() + 1
    ||| new.expanded.len() == old.expanded.len() && new.stale() + 1 == old.stale()
}

/// The bookkeeping of one search.
struct Engine {
    /// Boards to look at, by cost so far plus estimate.
    heap: MinHeap<Board>,
    /// The lowest cost found so far for each board met.
    path_costs: HashMap<u32, u32>,
    /// For each board met but the initial one, the board from which its
    /// lowest cost was reached, and the move taken.
    predecessors: HashMap<u32, (Board, Direction)>,
    /// The boards that have been expanded.
    expanded: HashSet<u32>,
}

impl Engine {
    /// The bookkeeping as mathematical values.
    spec fn book(&self) -> Book {
        Book {
            cost: self.path_costs@,
            pred: self.predecessors@,
            expanded: self.expanded@,
            frontier: self.heap@,
        }
    }

    /// The state in which a search starts: the initial board on the
    /// frontier, at cost 0.
    fn start(init_state: Board, heuristic: Heuristic) -> (engine: Engine)
        requires
            init_state.wf(),
        ensures
            engine.heap.wf(),
            engine.book().inv_at(init_state@, heuristic, init_state@, 4),
            engine.book().expanded.len() == 0,
    {
        let mut heap: MinHeap<Board> = MinHeap::new();
        let mut path_costs: HashMap<u32, u32> = HashMap::new();
        let predecessors: HashMap<u32, (Board, Direction)> = HashMap::new();
        let expanded: HashSet<u32> = HashSet::new();
        heap.insert(init_state, 0);
        path_costs.insert(init_state.code(), 0);
        let engine = Engine { heap, path_costs, predecessors, expanded };
        proof {
            lemma_start(engine.book(), init_state, heuristic);
        }
        engine
    }

    /// Pops a board of least priority and marks it expanded.
    fn take(&mut self, heuristic: Heuristic, Ghost(init): Ghost<Seq<u8>>) -> (s: Board)
        requires
            old(self).heap.wf(),
            old(self).book().inv_at(init, heuristic, init, 4),
            old(self).book().frontier.len() > 0,
        ensures
            final(self).heap.wf(),
            s.wf(),
            final(self).book().cost.contains_key(key(s@)),
            final(self).book().expanded.contains(key(s@)),
            final(self).book().traceable(init),
            final(self).book().countable(init),
            final(self).book().expanded.finite(),
            final(self).book().expanded.len() <= CODE_LIMIT,
            s@ != goal_grid() ==> final(self).book().inv_at(init, heuristic, s@, 0),
            heuristic != Heuristic::Manhattan ==> shortest_to(
                init,
                s@,
                final(self).book().cost[key(s@)] as int,
            ),
            advanced(old(self).book(), final(self).book()),
    {
        let popped: Option<Board> = self.heap.pop();
        let s: Board = popped.unwrap();
        let ghost p: u32 = choose|p: u32| #[trigger]
            is_least(old(self).heap@, (s, p)) && self.heap@ == old(self).heap@.remove((s, p));
        proof {
            reveal(Book::entries_ok);
            assert(old(self).heap@.count((s, p)) > 0);
            lemma_key(s@, s@);
        }
        let code: u32 = s.code();
        self.expanded.insert(code);
        proof {
            lemma_take(old(self).book(), self.book(), init, heuristic, s, p);
        }
        s
    }

    /// Tries one direction out of the board `s` that is being expanded.
    fn relax(
        &mut self,
        s: Board,
        s_cost: u32,
        direction: Direction,
        heuristic: Heuristic,
        Ghost(init): Ghost<Seq<u8>>,
    )
        requires
            old(self).heap.wf(),
            old(self).book().inv_at(init, heuristic, s@, dir_index(direction)),
            s.wf(),
            old(self).book().expanded.contains(key(s@)),
            old(self).book().expanded.len() <= CODE_LIMIT,
            s_cost == old(self).book().cost[key(s@)],
        ensures
            final(self).heap.wf(),
            final(self).book().inv_at(init, heuristic, s@, dir_index(direction) + 1),
            final(self).book().expanded == old(self).book().expanded,
            final(self).book().stale() == old(self).book().stale(),
            final(self).book().cost[key(s@)] == s_cost,
    {
        proof {
            reveal(Book::costs_ok);
        }
        let child: Option<Board> = s.apply(direction);
        match child {
            None => {
                proof {
                    lemma_relax_skip(self.book(), init, heuristic, s@, direction);
                }
            },
            Some(c) => {
                let k: u32 = c.code();
                proof {
                    lemma_key(c@, s@);
                }
                if self.expanded.contains(&k) {
                    proof {
                        lemma_relax_skip(self.book(), init, heuristic, s@, direction);
                    }
                } else {
                    let child_cost: u32 = match self.path_costs.get(&k) {
                        Some(a) => *a,
                        None => u32::MAX,
                    };
                    let h_value: u32 = heuristic.estimate(&c);
                    if child_cost > s_cost + 1 {
                        self.path_costs.insert(k, s_cost + 1);
                        self.predecessors.insert(k, (s, direction));
                        self.heap.insert(c, s_cost + 1 + h_value);
                        proof {
                            lemma_relax_improve(
                                old(self).book(),
                                self.book(),
                                init,
                                heuristic,
                                s,
                                direction,
                                c,
                            );
                        }
                    } else {
                        self.heap.insert(c, child_cost + h_value);
                        proof {
                            lemma_relax_announce(
                                old(self).book(),
                                self.book(),
                                init,
                                heuristic,
                                s@,
                                direction,
                                c,
                            );
                        }
                    }
                }
            },
        }
    }

    /// Walks back from the solved board along the predecessors and returns
    /// the moves in the order in which they are made.
    fn trace(&self, init_state: Board, goal: Board) -> (plan: Vec<Direction>)
        requires
            init_state.wf(),
            goal.wf(),
            goal@ == goal_grid(),
            self.book().traceable(init_state@),
            self.book().cost.contains_key(key(goal@)),
            self.book().expanded.contains(key(goal@)),
            self.book().expanded.finite(),
        ensures
            solves(init_state@, plan@),
            plan@.len() == self.book().cost[key(goal@)],
            plan@.len() + 1 <= self.book().expanded.len(),
    {
        let mut current: Board = goal;
        let mut plan: Vec<Direction> = Vec::new();
        let ghost mut passed: Set<u32> = Set::empty();
        assert(replay(current@, plan@) == Some(goal_grid()));
        while current != init_state
            invariant
                init_state.wf(),
                current.wf(),
                goal@ == goal_grid(),
                self.book().traceable(init_state@),
                self.book().cost.contains_key(key(goal@)),
                self.book().cost.contains_key(key(current@)),
                self.book().expanded.contains(key(current@)),
                self.book().expanded.finite(),
                replay(current@, plan@) == Some(goal_grid()),
                plan@.len() + self.book().cost[key(current@)] == self.book().cost[key(goal@)],
                passed.finite(),
                passed.len() == plan@.len(),
                forall|k: u32| #[trigger]
                    passed.contains(k) ==> self.book().expanded.contains(k) && self.book().cost[k]
                        > self.book().cost[key(current@)],
            decreases self.book().cost[key(current@)],
        {
            let code: u32 = current.code();
            proof {
                reveal(Book::preds_ok);
                lemma_key(current@, init_state@);
                assert(self.book().linked(code));
                passed = passed.insert(code);
            }
            let entry: &(Board, Direction) = self.predecessors.get(&code).unwrap();
            let parent: Board = entry.0;
            let direction: Direction = entry.1;
            proof {
                lemma_slide(parent@, direction);
                lemma_key(slide(parent@, direction).unwrap(), current@);
                let longer = plan@.insert(0, direction);
                assert(longer[0] == direction);
                assert(longer.drop_first() =~= plan@);
            }
            plan.insert(0, direction);
            current = parent;
        }
        proof {
            let all = passed.insert(key(current@));
            assert(all.subset_of(self.book().expanded));
            lemma_len_subset(all, self.book().expanded);
        }
        plan
    }
}

/// The search proper: what `search` does between reading the clock twice.
/// Returns the plan, if there is one, and the number of boards expanded.
fn run(init_state: Board, heuristic: Heuristic) -> (out: (Option<Vec<Direction>>, usize))
    requires
        init_state.wf(),
    ensures
        match out.0 {
            Some(plan) => {
                &&& solves(init_state@, plan@)
                &&& heuristic != Heuristic::Manhattan ==> is_shortest_plan(init_state@, plan@)
                &&& plan@.len() + 1 <= out.1 <= reachable_grids(init_state@).len()
            },
            None => unsolvable(init_state@) && out.1 == reachable_grids(init_state@).len(),
        },
{
    let goal: Board = Board::goal();
    let directions: [Direction; 4] = [
        Direction::Left,
        Direction::Right,
        Direction::Up,
        Direction::Down,
    ];
    let mut engine: Engine = Engine::start(init_state, heuristic);
    let mut result: Option<Vec<Direction>> = None;
    while !engine.heap.is_empty()
        invariant_except_break
            engine.heap.wf(),
            engine.book().inv_at(init_state@, heuristic, init_state@, 4),
            engine.book().expanded.len() <= CODE_LIMIT,
            result is None,
        invariant
            init_state.wf(),
            goal.wf(),
            goal@ == goal_grid(),
            forall|i: int| 0 <= i < 4 ==> dir_index(#[trigger] directions@[i]) == i,
        ensures
            result is Some ==> solves(init_state@, result.unwrap()@) && (heuristic
                != Heuristic::Manhattan ==> shortest_to(
                init_state@,
                goal_grid(),
                result.unwrap()@.len() as int,
            )),
            result is Some ==> engine.book().countable(init_state@) && result.unwrap()@.len() + 1
                <= engine.book().expanded.len(),
            result is None ==> engine.book().inv_at(init_state@, heuristic, init_state@, 4)
                && engine.book().frontier.len() == 0,
        decreases CODE_LIMIT - engine.book().expanded.len(), engine.book().stale(),
    {
        let s: Board = engine.take(heuristic, Ghost(init_state@));
        if s == goal {
            let plan: Vec<Direction> = engine.trace(init_state, s);
            result = Some(plan);
            break ;
        }
        let s_cost: u32 = *engine.path_costs.get(&s.code()).unwrap();
        let ghost expanded = engine.book().expanded;
        let ghost stale = engine.book().stale();
        let mut n: usize = 0;
        while n < 4
            invariant
                n <= 4,
                s.wf(),
                engine.heap.wf(),
                engine.book().inv_at(init_state@, heuristic, s@, n as int),
                engine.book().expanded.contains(key(s@)),
                engine.book().expanded.len() <= CODE_LIMIT,
                engine.book().expanded == expanded,
                engine.book().stale() == stale,
                s_cost == engine.book().cost[key(s@)],
                forall|i: int| 0 <= i < 4 ==> dir_index(#[trigger] directions@[i]) == i,
            decreases 4 - n,
        {
            let direction: Direction = directions[n];
            engine.relax(s, s_cost, direction, heuristic, Ghost(init_state@));
            n += 1;
        }
        proof {
            lemma_finish(engine.book(), init_state@, heuristic, s@);
        }
    }
    proof {
        let book = engine.book();
        if result is None {
            assert(book.countable(init_state@)) by {
                reveal(Book::costs_ok);
                reveal(Book::start_ok);
            }
            assert forall|x: Seq<u8>| #[trigger]
                reachable_grids(init_state@).contains(x) implies book.expanded.contains(
                key(x),
            ) by {
                let plan = choose|plan: Seq<Direction>| (#[trigger] replay(init_state@, plan))
                    == Some(x);
                lemma_all_expanded(book, init_state@, heuristic, plan);
            }
        }
        lemma_count(book, init_state@);
        if result is Some {
            let moves = result.unwrap()@;
            if heuristic != Heuristic::Manhattan {
                assert forall|other: Seq<Direction>| #[trigger]
                    solves(init_state@, other) implies moves.len() <= other.len() by {
                    assert(replay(init_state@, other) == Some(goal_grid()));
                }
            }
        } else {
            lemma_exhausted(engine.book(), init_state@, heuristic);
        }
    }
    (result, engine.expanded.len())
}

/// A point in time, as the standard library's monotonic clock gives it.
/// Nothing is known of its value.
#[verifier::external_type_specification]
#[verifier::external_body]
pub struct ExInstant(Instant);

/// `Instant::now` reads the clock. Nothing is claimed of the result.
pub assume_specification[ Instant::now ]() -> (now: Instant)
;

/// `Instant::elapsed` gives the time that has passed since the instant was
/// taken. Nothing is claimed of the result.
pub assume_specification[ Instant::elapsed ](start: &Instant) -> (elapsed: Duration)
;

/// Searches for a shortest plan from `init_state` to the solved board.
///
/// Returns a plan exactly when one exists. The plan returned always leads to
/// the solved board. With the Blind and the Hamming estimator it is also a
/// shortest one; with Manhattan, which counts the blank and may
/// overestimate by more than one move, it need not be.
///
/// The statistics count the boards expanded: every board that can be
/// reached when there is no plan, and otherwise at least the boards that
/// the plan passes through. Nothing is said of the runtime.
pub fn search(init_state: Board, heuristic: Heuristic) -> (out: (Option<Vec<Direction>>, Stats))
    requires
        init_state.wf(),
    ensures
        match out.0 {
            Some(plan) => {
                &&& solves(init_state@, plan@)
                &&& heuristic != Heuristic::Manhattan ==> is_shortest_plan(init_state@, plan@)
                &&& plan@.len() + 1 <= out.1.expanded <= reachable_grids(init_state@).len()
            },
            None => unsolvable(init_state@) && out.1.expanded == reachable_grids(
                init_state@,
            ).len(),
        },
{
    let start: Instant = Instant::now();
    let found: (Option<Vec<Direction>>, usize) = run(init_state, heuristic);
    let runtime: Duration = start.elapsed();
    let stats: Stats = Stats::new(found.1, runtime);
    (found.0, stats)
}

} // verus!
