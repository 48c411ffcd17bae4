//! The stepper: owns a board and advances it one generation at a time.
//!
//! A step has two phases. The evaluation phase reads the board and lists the
//! cells whose state changes; the commit phase then applies that list. Every
//! decision therefore sees the same generation.
use vstd::prelude::*;
use std::time::{Duration, Instant};
use crate::board::{Board, Coord, coord_in_range, neighbourhood};

verus! {

#[verifier::external_type_specification]
#[verifier::external_body]
pub struct ExInstant(Instant);

/// Relies on `std::time::Instant::now`: reads the monotonic clock.
#[verifier::external_body]
fn clock_now() -> Instant {
    Instant::now()
}

/// Relies on `std::time::Instant::elapsed`: the time passed since `start`.
#[verifier::external_body]
fn elapsed_since(start: &Instant) -> Duration {
    start.elapsed()
}

/// Number of `true` entries in `s`.
pub open spec fn count_true(s: Seq<bool>) -> int
    decreases s.len(),
{
    if s.len() == 0 {
        0
    } else {
        count_true(s.drop_last()) + if s.last() {
            1int
        } else {
            0int
        }
    }
}

/// Number of occupied neighbours of `(c, r)`.
pub open spec fn live_neighbours(live: Set<(int, int)>, c: int, r: int) -> int {
    count_true(neighbourhood(live, c, r))
}

/// The birth/survival rule: a cell is occupied next generation when it has
/// three occupied neighbours, or two and is occupied now.
pub open spec fn rule(alive: bool, n: int) -> bool {
    n == 3 || (alive && n == 2)
}

/// The occupied set one generation after `live`.
pub open spec fn next_generation(live: Set<(int, int)>) -> Set<(int, int)> {
    Set::new(|p: (int, int)| rule(live.contains(p), live_neighbours(live, p.0, p.1)))
}

/// Every occupied cell and each of its neighbours' neighbours fit in `isize`.
pub open spec fn steppable(live: Set<(int, int)>) -> bool {
    forall|p: (int, int)|
        #[trigger] live.contains(p) ==> isize::MIN + 1 < p.0 < isize::MAX - 1 && isize::MIN + 1
            < p.1 < isize::MAX - 1
}

/// `q` lies in the 3x3 block centred on `p`.
pub open spec fn in_block(p: (int, int), q: (int, int)) -> bool {
    -1 <= q.0 - p.0 <= 1 && -1 <= q.1 - p.1 <= 1
}

/// `e` is the correct decision for a cell that changes state.
pub open spec fn decided(live: Set<(int, int)>, e: (Coord, bool)) -> bool {
    &&& coord_in_range(e.0@.0, e.0@.1)
    &&& e.1 == next_generation(live).contains(e.0@)
    &&& e.1 != live.contains(e.0@)
}

/// The rule as executable code.
pub fn next_state(alive: bool, n: usize) -> (r: bool)
    ensures
        r == rule(alive, n as int),
{
    n == 3 || (alive && n == 2)
}

/// A cell with no occupied neighbour has a neighbour count of zero.
proof fn lemma_lonely(live: Set<(int, int)>, c: int, r: int)
    requires
        forall|q: (int, int)| in_block((c, r), q) && q != (c, r) ==> !live.contains(q),
    ensures
        live_neighbours(live, c, r) == 0,
{
    assert(!live.contains((c - 1, r)) && !live.contains((c - 1, r - 1)) && !live.contains((c, r - 1)));
    assert(!live.contains((c + 1, r - 1)) && !live.contains((c + 1, r)) && !live.contains((c + 1, r + 1)));
    assert(!live.contains((c, r + 1)) && !live.contains((c - 1, r + 1)));
    lemma_count_eight(neighbourhood(live, c, r));
}

/// Number of occupied neighbours of `(c, r)` on `board`.
fn count_neighbours(board: &Board, c: isize, r: isize) -> (n: usize)
    requires
        board.wf(),
        coord_in_range(c as int, r as int),
    ensures
        n == live_neighbours(board.live(), c as int, r as int),
{
    let v = board.get_vicinity(c, r);
    let mut n: usize = 0;
    let mut k: usize = 0;
    while k < v.len()
        invariant
            k <= v@.len(),
            n <= k,
            n == count_true(v@.subrange(0, k as int)),
        decreases v@.len() - k,
    {
        assert(v@.subrange(0, k + 1).drop_last() =~= v@.subrange(0, k as int));
        if v[k] {
            n = n + 1;
        }
        k = k + 1;
    }
    assert(v@.subrange(0, v@.len() as int) =~= v@);
    n
}


/// The evaluation phase: every cell whose state differs next generation,
/// with its new state. Only the occupied cells and their neighbours are
/// examined, each once.
fn evaluate(board: &Board) -> (d: Vec<(Coord, bool)>)
    requires
        board.wf(),
        steppable(board.live()),
    ensures
        forall|k: int| 0 <= k < d@.len() ==> decided(board.live(), #[trigger] d@[k]),
        forall|p: (int, int)|
            next_generation(board.live()).contains(p) != board.live().contains(p) ==> exists|k: int|
                0 <= k < d@.len() && (#[trigger] d@[k]).0@ == p,
{
    let ghost live = board.live();
    let cells = board.get_occupied();
    let ghost listed = cells@.map_values(|c: &Coord| c@);
    let mut seen = Board::new_unbounded();
    let mut d: Vec<(Coord, bool)> = Vec::new();
    let mut i: usize = 0;
    while i < cells.len()
        invariant
            board.wf(),
            live == board.live(),
            steppable(live),
            i <= cells@.len(),
            forall|p: (int, int)|
                #![trigger live.contains(p)]
                listed.contains(p) <==> live.contains(p),
            listed == cells@.map_values(|c: &Coord| c@),
            seen.wf(),
            forall|k: int| 0 <= k < d@.len() ==> decided(live, #[trigger] d@[k]),
            forall|p: (int, int)|
                #[trigger] seen.live().contains(p) ==> (next_generation(live).contains(p)
                    != live.contains(p) ==> exists|k: int|
                    0 <= k < d@.len() && (#[trigger] d@[k]).0@ == p),
            forall|j: int, q: (int, int)|
                0 <= j < i && in_block(#[trigger] cells@[j]@, q) ==> #[trigger] seen.live().contains(q),
        decreases cells@.len() - i,
    {
        let c = cells[i].col;
        let r = cells[i].row;
        proof {
            assert(listed[i as int] == cells@[i as int]@);
            assert(live.contains((c as int, r as int)));
        }
        let mut dy: isize = -1;
        while dy <= 1
            invariant
                board.wf(),
                live == board.live(),
                live.contains((c as int, r as int)),
                steppable(live),
                i < cells@.len(),
                cells@[i as int]@ == (c as int, r as int),
                -1 <= dy <= 2,
                seen.wf(),
                forall|k: int| 0 <= k < d@.len() ==> decided(live, #[trigger] d@[k]),
                forall|p: (int, int)|
                    #[trigger] seen.live().contains(p) ==> (next_generation(live).contains(p)
                        != live.contains(p) ==> exists|k: int|
                        0 <= k < d@.len() && (#[trigger] d@[k]).0@ == p),
                forall|j: int, q: (int, int)|
                    0 <= j < i && in_block(#[trigger] cells@[j]@, q) ==> #[trigger] seen.live().contains(q),
                forall|q: (int, int)|
                    in_block((c as int, r as int), q) && q.1 < r + dy ==> #[trigger] seen.live().contains(q),
            decreases 2 - dy,
        {
            let mut dx: isize = -1;
            while dx <= 1
                invariant
                    board.wf(),
                    live == board.live(),
                    live.contains((c as int, r as int)),
                    steppable(live),
                    i < cells@.len(),
                    cells@[i as int]@ == (c as int, r as int),
                    -1 <= dy <= 1,
                    -1 <= dx <= 2,
                    seen.wf(),
                    forall|k: int| 0 <= k < d@.len() ==> decided(live, #[trigger] d@[k]),
                    forall|p: (int, int)|
                        #[trigger] seen.live().contains(p) ==> (next_generation(live).contains(p)
                            != live.contains(p) ==> exists|k: int|
                            0 <= k < d@.len() && (#[trigger] d@[k]).0@ == p),
                    forall|j: int, q: (int, int)|
                        0 <= j < i && in_block(#[trigger] cells@[j]@, q) ==> #[trigger] seen.live().contains(q),
                    forall|q: (int, int)|
                        in_block((c as int, r as int), q) && (q.1 < r + dy || (q.1 == r + dy && q.0 < c + dx))
                            ==> #[trigger] seen.live().contains(q),
                decreases 2 - dx,
            {
                let x = c + dx;
                let y = r + dy;
                if !seen.is_alive(x, y) {
                    let ghost before = d@;
                    seen.born_at(x, y);
                    let alive = board.is_alive(x, y);
                    let n = count_neighbours(board, x, y);
                    let next = next_state(alive, n);
                    if next != alive {
                        d.push((Coord { col: x, row: y }, next));
                        assert(d@[before.len() as int].0@ == (x as int, y as int));
                    }
                    assert forall|p: (int, int)|
                        #[trigger] seen.live().contains(p) implies (next_generation(live).contains(p)
                            != live.contains(p) ==> exists|k: int|
                            0 <= k < d@.len() && (#[trigger] d@[k]).0@ == p) by {
                        if p != (x as int, y as int) && next_generation(live).contains(p) != live.contains(p) {
                            let k = choose|k: int| 0 <= k < before.len() && (#[trigger] before[k]).0@ == p;
                            assert(d@[k] == before[k]);
                        }
                    }
                }
                dx = dx + 1;
            }
            dy = dy + 1;
        }
        i = i + 1;
    }
    proof {
        assert forall|p: (int, int)|
            next_generation(live).contains(p) != live.contains(p) implies exists|k: int|
                0 <= k < d@.len() && (#[trigger] d@[k]).0@ == p by {
            if live.contains(p) {
                let j = choose|j: int|
                    0 <= j < listed.len() && #[trigger] listed[j] == p;
                assert(cells@[j]@ == p);
                assert(in_block(cells@[j]@, p));
                assert(seen.live().contains(p));
            } else {
                if !seen.live().contains(p) {
                    assert forall|q: (int, int)| in_block(p, q) && q != p implies !live.contains(q) by {
                        if live.contains(q) {
                            let j = choose|j: int|
                                0 <= j < listed.len() && #[trigger] listed[j] == q;
                            assert(cells@[j]@ == q);
                            assert(in_block(cells@[j]@, p));
                        }
                    }
                    lemma_lonely(live, p.0, p.1);
                }
                assert(seen.live().contains(p));
            }
        }
    }
    d
}


/// The commit phase: applies each decision of `d` to `board`. Every decision
/// agrees with `target`, so the result does not depend on their order.
fn commit(board: &mut Board, d: &Vec<(Coord, bool)>, Ghost(target): Ghost<Set<(int, int)>>)
    requires
        old(board).wf(),
        forall|k: int|
            0 <= k < d@.len() ==> {
                &&& coord_in_range((#[trigger] d@[k]).0@.0, d@[k].0@.1)
                &&& d@[k].1 == target.contains(d@[k].0@)
                &&& d@[k].1 != old(board).live().contains(d@[k].0@)
            },
    ensures
        final(board).wf(),
        final(board).bounded() == old(board).bounded(),
        forall|p: (int, int)|
            #![trigger final(board).live().contains(p)]
            final(board).live().contains(p) == if exists|k: int|
                0 <= k < d@.len() && (#[trigger] d@[k]).0@ == p {
                target.contains(p)
            } else {
                old(board).live().contains(p)
            },
        final(board).grown_only_for(old(board), target),
{
    let ghost start = *board;
    assert forall|p: (int, int)| #[trigger] start.live().contains(p) implies board.allocated(p.0, p.1) by {
        board.lemma_alive_allocated(p.0, p.1);
    }
    let mut k: usize = 0;
    while k < d.len()
        invariant
            k <= d@.len(),
            board.wf(),
            start.wf(),
            board.bounded() == start.bounded(),
            start == *old(board),
            forall|k: int|
                0 <= k < d@.len() ==> {
                    &&& coord_in_range((#[trigger] d@[k]).0@.0, d@[k].0@.1)
                    &&& d@[k].1 == target.contains(d@[k].0@)
                    &&& d@[k].1 != start.live().contains(d@[k].0@)
                },
            forall|p: (int, int)|
                #![trigger board.live().contains(p)]
                board.live().contains(p) == if exists|j: int|
                    0 <= j < k && (#[trigger] d@[j]).0@ == p {
                    target.contains(p)
                } else {
                    start.live().contains(p)
                },
            forall|p: (int, int)| #[trigger]
                start.live().contains(p) ==> board.allocated(p.0, p.1),
            board.grown_only_for(&start, target),
        decreases d@.len() - k,
    {
        let ghost prev = *board;
        let (cell, alive) = d[k];
        let ghost p = cell@;
        if alive {
            board.born_at(cell.col, cell.row);
        } else {
            proof {
                assert(start.live().contains(p));
                assert(prev.allocated(p.0, p.1));
                prev.lemma_allocated_in_range(p.0, p.1);
            }
            board.kill_at(cell.col, cell.row);
        }
        proof {
            assert forall|q: (int, int)| #[trigger]
                start.live().contains(q) implies board.allocated(q.0, q.1) by {
                assert(prev.allocated(q.0, q.1));
            }
            assert forall|q: (int, int)|
                #![trigger board.live().contains(q)]
                board.live().contains(q) == if exists|j: int|
                    0 <= j < k + 1 && (#[trigger] d@[j]).0@ == q {
                    target.contains(q)
                } else {
                    start.live().contains(q)
                } by {
                if q == p {
                    assert(d@[k as int].0@ == q);
                } else if exists|j: int| 0 <= j < k + 1 && (#[trigger] d@[j]).0@ == q {
                    let j = choose|j: int| 0 <= j < k + 1 && (#[trigger] d@[j]).0@ == q;
                    assert(j < k);
                }
            }
            if board.rows_pos() != start.rows_pos() && board.rows_pos() != prev.rows_pos() {
                assert(target.contains(p) && p.1 + 1 == board.rows_pos());
            }
            if board.rows_neg() != start.rows_neg() && board.rows_neg() != prev.rows_neg() {
                assert(target.contains(p) && -p.1 == board.rows_neg());
            }
            assert forall|r: int|
                #![trigger board.cols_pos(r)]
                board.cols_pos(r) >= start.cols_pos(r) && (board.cols_pos(r) == start.cols_pos(r)
                    || exists|q: (int, int)|
                    #[trigger] target.contains(q) && q.1 == r && q.0 + 1 == board.cols_pos(r)) by {
                assert(prev.cols_pos(r) >= start.cols_pos(r));
                if board.cols_pos(r) != prev.cols_pos(r) {
                    assert(target.contains(p) && p.1 == r && p.0 + 1 == board.cols_pos(r));
                }
            }
            assert forall|r: int|
                #![trigger board.cols_neg(r)]
                board.cols_neg(r) >= start.cols_neg(r) && (board.cols_neg(r) == start.cols_neg(r)
                    || exists|q: (int, int)|
                    #[trigger] target.contains(q) && q.1 == r && -q.0 == board.cols_neg(r)) by {
                assert(prev.cols_neg(r) >= start.cols_neg(r));
                if board.cols_neg(r) != prev.cols_neg(r) {
                    assert(target.contains(p) && p.1 == r && -p.0 == board.cols_neg(r));
                }
            }
        }
        k = k + 1;
    }
}


/// Why a random fill was refused.
#[derive(Debug, PartialEq, Eq, Structural, Clone, Copy)]
pub enum RandomizeError {
    /// The board has no finite extent to sample from.
    Unbounded,
}

/// Owns one board, the number of generations computed on it, and how long
/// the last step took.
pub struct Engine {
    board: Board,
    iteration: u64,
    last_duration: Option<Duration>,
}

impl Engine {
    pub closed spec fn board(&self) -> Board {
        self.board
    }

    pub closed spec fn generation(&self) -> int {
        self.iteration as int
    }

    /// Whether a step has completed, so that its duration is known.
    pub closed spec fn timed(&self) -> bool {
        self.last_duration is Some
    }

    pub open spec fn wf(&self) -> bool {
        self.board().wf()
    }

    /// An engine at generation zero over `board`.
    pub fn new(board: Board) -> (e: Engine)
        ensures
            e.board() == board,
            e.generation() == 0,
            !e.timed(),
    {
        Engine { board, iteration: 0, last_duration: None }
    }

    /// Advances the board by exactly one generation. Storage grows only where
    /// a newly occupied cell needs it.
    pub fn one_iteration(&mut self)
        requires
            old(self).wf(),
            steppable(old(self).board().live()),
            old(self).generation() < u64::MAX,
        ensures
            final(self).wf(),
            final(self).board().live() == next_generation(old(self).board().live()),
            final(self).board().bounded() == old(self).board().bounded(),
            final(self).board().grown_only_for(&old(self).board(), final(self).board().live()),
            final(self).generation() == old(self).generation() + 1,
            final(self).timed(),
    {
        let start = clock_now();
        let ghost live = self.board.live();
        let d = evaluate(&self.board);
        commit(&mut self.board, &d, Ghost(next_generation(live)));
        assert(self.board.live() =~= next_generation(live));
        self.iteration = self.iteration + 1;
        self.last_duration = Some(elapsed_since(&start));
    }

    /// Number of generations computed since the engine was made or reset.
    pub fn cur_iteration(&self) -> (r: u64)
        ensures
            r == self.generation(),
    {
        self.iteration
    }

    /// How long the last step took; `None` before the first step.
    pub fn last_step_duration(&self) -> (r: Option<Duration>)
        ensures
            r is Some <==> self.timed(),
    {
        self.last_duration
    }

    pub fn get_board(&self) -> (r: &Board)
        ensures
            *r == self.board(),
    {
        &self.board
    }

    pub fn get_board_mut(&mut self) -> (r: &mut Board)
        ensures
            *r == old(self).board(),
            final(self).board() == *final(r),
            final(self).generation() == old(self).generation(),
    {
        &mut self.board
    }

    /// Replaces the board wholesale; the generation count is kept.
    pub fn set_board(&mut self, board: Board)
        ensures
            final(self).board() == board,
            final(self).generation() == old(self).generation(),
    {
        self.board = board;
    }

    /// Discards the board for a fresh empty one of the same kind, at generation zero.
    pub fn reset(&mut self)
        requires
            old(self).wf(),
        ensures
            final(self).wf(),
            final(self).board().live() == Set::<(int, int)>::empty(),
            final(self).board().bounded() == old(self).board().bounded(),
            final(self).generation() == 0,
    {
        if self.board.is_bounded() {
            self.board = Board::new(0, 0);
        } else {
            self.board = Board::new_unbounded();
        }
        self.iteration = 0;
    }

    /// Refills every allocated cell: cell `(c, r)` becomes occupied exactly
    /// when `pick(c, r)` returns `true`. The storage stays as it was. A board
    /// without a finite extent is refused and left untouched.
    pub fn randomize<F: Fn(isize, isize) -> bool>(&mut self, pick: F) -> (res: Result<
        (),
        RandomizeError,
    >)
        requires
            old(self).wf(),
            forall|c: isize, r: isize| pick.requires((c, r)),
        ensures
            !old(self).board().bounded() ==> res == Err::<(), RandomizeError>(
                RandomizeError::Unbounded,
            ) && *final(self) == *old(self),
            old(self).board().bounded() ==> res is Ok,
            res is Ok ==> {
                &&& final(self).wf()
                &&& final(self).board().bounded()
                &&& final(self).board().same_alloc(&old(self).board())
                &&& final(self).generation() == old(self).generation()
                &&& forall|c: isize, r: isize|
                    #![trigger final(self).board().live().contains((c as int, r as int))]
                    old(self).board().allocated(c as int, r as int) ==> pick.ensures(
                        (c, r),
                        final(self).board().live().contains((c as int, r as int)),
                    )
                &&& forall|p: (int, int)|
                    !old(self).board().allocated(p.0, p.1) ==> !(#[trigger] final(self).board().live().contains(p))
            },
    {
        if !self.board.is_bounded() {
            return Err(RandomizeError::Unbounded);
        }
        let ghost start = self.board;
        let (lo, hi) = self.board.row_span();
        assert forall|c: isize, r: isize| start.allocated(c as int, r as int) implies r >= lo by {
            start.lemma_allocated_in_range(c as int, r as int);
        }
        assert forall|p: (int, int)| #[trigger] start.live().contains(p) implies start.allocated(p.0, p.1) by {
            start.lemma_alive_allocated(p.0, p.1);
        }
        let mut y: isize = lo;
        while y < hi
            invariant
                lo <= y <= hi,
                lo == -start.rows_neg(),
                hi == start.rows_pos(),
                self.board.wf(),
                start.wf(),
                self.board.bounded(),
                self.iteration == old(self).iteration,
                start == old(self).board,
                self.board.same_alloc(&start),
                forall|c: isize, r: isize|
                    #![trigger self.board.live().contains((c as int, r as int))]
                    start.allocated(c as int, r as int) && r < y ==> pick.ensures(
                        (c, r),
                        self.board.live().contains((c as int, r as int)),
                    ),
                forall|p: (int, int)|
                    !start.allocated(p.0, p.1) ==> !(#[trigger] self.board.live().contains(p)),
                forall|c: isize, r: isize| pick.requires((c, r)),
            decreases hi - y,
        {
            let (clo, chi) = self.board.col_span(y);
            let mut x: isize = clo;
            while x < chi
                invariant
                    lo <= y < hi,
                    clo <= x <= chi,
                    clo == -start.cols_neg(y as int),
                    chi == start.cols_pos(y as int),
                    self.board.wf(),
                    start.wf(),
                    self.board.bounded(),
                    self.iteration == old(self).iteration,
                    start == old(self).board,
                    self.board.same_alloc(&start),
                    forall|c: isize, r: isize|
                        #![trigger self.board.live().contains((c as int, r as int))]
                        start.allocated(c as int, r as int) && (r < y || (r == y && c < x))
                            ==> pick.ensures((c, r), self.board.live().contains((c as int, r as int))),
                    forall|p: (int, int)|
                        !start.allocated(p.0, p.1) ==> !(#[trigger] self.board.live().contains(p)),
                    forall|c: isize, r: isize| pick.requires((c, r)),
                decreases chi - x,
            {
                proof {
                    start.lemma_allocated_in_range(x as int, y as int);
                }
                let ghost prev = self.board;
                let v = pick(x, y);
                if v {
                    self.board.born_at(x, y);
                } else {
                    self.board.kill_at(x, y);
                }
                proof {
                    assert(self.board.rows_pos() == prev.rows_pos());
                    assert(self.board.rows_neg() == prev.rows_neg());
                    assert(self.board.live().contains((x as int, y as int)) == v);
                }
                x = x + 1;
            }
            y = y + 1;
        }
        assert forall|c: isize, r: isize| start.allocated(c as int, r as int) implies r < y by {
            start.lemma_allocated_in_range(c as int, r as int);
        }
        Ok(())
    }

    /// Whether `one_iteration` may run: every occupied cell lies far enough
    /// inside `isize` for its neighbours' neighbours, and the generation
    /// count can still grow.
    pub fn can_step(&self) -> (r: bool)
        requires
            self.wf(),
        ensures
            r == (steppable(self.board().live()) && self.generation() < u64::MAX),
    {
        if self.iteration == u64::MAX {
            return false;
        }
        let cells = self.board.get_occupied();
        let ghost listed = cells@.map_values(|c: &Coord| c@);
        let lo: isize = isize::MIN + 1;
        let hi: isize = isize::MAX - 1;
        let mut i: usize = 0;
        while i < cells.len()
            invariant
                i <= cells@.len(),
                listed == cells@.map_values(|c: &Coord| c@),
                forall|p: (int, int)|
                    #![trigger self.board().live().contains(p)]
                    listed.contains(p) <==> self.board().live().contains(p),
                lo == isize::MIN + 1,
                hi == isize::MAX - 1,
                forall|j: int|
                    0 <= j < i ==> lo < (#[trigger] cells@[j]).col < hi && lo < cells@[j].row < hi,
            decreases cells@.len() - i,
        {
            let c = cells[i];
            if !(lo < c.col && c.col < hi && lo < c.row && c.row < hi) {
                proof {
                    assert(listed[i as int] == c@);
                    assert(listed.contains(c@));
                    assert(self.board().live().contains(c@));
                }
                return false;
            }
            i = i + 1;
        }
        proof {
            assert forall|p: (int, int)| #[trigger] self.board().live().contains(p) implies isize::MIN
                + 1 < p.0 < isize::MAX - 1 && isize::MIN + 1 < p.1 < isize::MAX - 1 by {
                assert(listed.contains(p));
                let j = choose|j: int| 0 <= j < listed.len() && #[trigger] listed[j] == p;
                assert(cells@[j]@ == p);
            }
        }
        true
    }
}


/// Counting the eight neighbours is a plain sum of eight terms.
proof fn lemma_count_eight(s: Seq<bool>)
    requires
        s.len() == 8,
    ensures
        count_true(s) == (if s[0] { 1int } else { 0int }) + (if s[1] { 1int } else { 0int }) + (
        if s[2] { 1int } else { 0int }) + (if s[3] { 1int } else { 0int }) + (if s[4] {
            1int
        } else {
            0int
        }) + (if s[5] { 1int } else { 0int }) + (if s[6] { 1int } else { 0int }) + (if s[7] {
            1int
        } else {
            0int
        }),
{
    reveal_with_fuel(count_true, 9);
    let s7 = s.drop_last();
    let s6 = s7.drop_last();
    let s5 = s6.drop_last();
    let s4 = s5.drop_last();
    let s3 = s4.drop_last();
    let s2 = s3.drop_last();
    let s1 = s2.drop_last();
    let s0 = s1.drop_last();
    assert(s0.len() == 0);
    assert(s1.last() == s[0] && s2.last() == s[1] && s3.last() == s[2] && s4.last() == s[3]);
    assert(s5.last() == s[4] && s6.last() == s[5] && s7.last() == s[6] && s.last() == s[7]);
}

/// The 2x2 block at columns and rows `0` and `1`.
pub open spec fn block() -> Set<(int, int)> {
    set![(0int, 0int), (1int, 0int), (0int, 1int), (1int, 1int)]
}

/// The block is a still life: stepping it gives the block again, so any
/// number of steps leaves it as it is.
pub proof fn lemma_block_is_still()
    ensures
        next_generation(block()) == block(),
{
    let b = block();
    assert forall|p: (int, int)| next_generation(b).contains(p) == b.contains(p) by {
        lemma_count_eight(neighbourhood(b, p.0, p.1));
    }
    assert(next_generation(b) =~= b);
}

/// Three cells in a row at columns `0 ..= 2` of row `0`.
pub open spec fn blinker_row() -> Set<(int, int)> {
    set![(0int, 0int), (1int, 0int), (2int, 0int)]
}

/// Three cells in a column at rows `-1 ..= 1` of column `1`.
pub open spec fn blinker_column() -> Set<(int, int)> {
    set![(1int, -1int), (1int, 0int), (1int, 1int)]
}

/// The blinker has period two: the row turns into the column through its
/// middle cell, and the column turns back into the row.
pub proof fn lemma_blinker_oscillates()
    ensures
        next_generation(blinker_row()) == blinker_column(),
        next_generation(blinker_column()) == blinker_row(),
{
    let h = blinker_row();
    let v = blinker_column();
    assert forall|p: (int, int)| next_generation(h).contains(p) == v.contains(p) by {
        lemma_count_eight(neighbourhood(h, p.0, p.1));
    }
    assert(next_generation(h) =~= v);
    assert forall|p: (int, int)| next_generation(v).contains(p) == h.contains(p) by {
        lemma_count_eight(neighbourhood(v, p.0, p.1));
    }
    assert(next_generation(v) =~= h);
}

} // verus!
