//! A sparse grid of cells that allocates rows and columns on demand.
//!
//! Rows are a `SymVec` of rows, each row a `SymVec` of cells. A cell that was
//! never allocated reads as `Empty`. Beside the cells the board keeps the list
//! of occupied coordinates, which always matches the cells exactly.
use vstd::prelude::*;
use crate::symvec::{SymVec, side_limit};

verus! {

/// Smallest number of rows and columns a bounded board starts with.
pub const MIN_SIDE: usize = 4;

#[derive(Debug, PartialEq, Eq, Structural, Hash, PartialOrd, Ord, Clone, Copy)]
pub struct Coord {
    pub col: isize,
    pub row: isize,
}

impl View for Coord {
    type V = (int, int);

    open spec fn view(&self) -> (int, int) {
        (self.col as int, self.row as int)
    }
}

#[derive(Debug, PartialEq, Eq, Structural, Copy, Clone)]
pub enum Cell {
    Empty,
    Occupied,
}

pub open spec fn max_int(a: int, b: int) -> int {
    if a >= b { a } else { b }
}

/// The coordinates `c` and `r` may be allocated on a board.
pub open spec fn coord_in_range(c: int, r: int) -> bool {
    isize::MIN < c < isize::MAX && isize::MIN < r < isize::MAX
}

pub struct Board {
    cells: SymVec<SymVec<Cell>>,
    occupied: Vec<Coord>,
    bounded: bool,
}

/// The eight neighbours of `(c, r)` in `live`, starting due west and going clockwise.
pub open spec fn neighbourhood(live: Set<(int, int)>, c: int, r: int) -> Seq<bool> {
    seq![
        live.contains((c - 1, r)),
        live.contains((c - 1, r - 1)),
        live.contains((c, r - 1)),
        live.contains((c + 1, r - 1)),
        live.contains((c + 1, r)),
        live.contains((c + 1, r + 1)),
        live.contains((c, r + 1)),
        live.contains((c - 1, r + 1)),
    ]
}

/// Relies on `String::push`: appends `c` at the end of `s`.
#[verifier::external_body]
fn push_char(s: &mut String, c: char)
    ensures
        final(s)@ == old(s)@.push(c),
{
    s.push(c);
}

/// The character drawn for a cell: `*` when occupied, `.` when empty.
pub open spec fn glyph(alive: bool) -> char {
    if alive {
        '*'
    } else {
        '.'
    }
}

/// `p` comes strictly before `q` in row-major order (rows first, then columns).
pub open spec fn before(p: (int, int), q: (int, int)) -> bool {
    p.1 < q.1 || (p.1 == q.1 && p.0 < q.0)
}

/// A cursor over every allocated cell of a board, in row-major order.
pub struct BoardIntoIterator<'a> {
    board: &'a Board,
    row: isize,
    col: isize,
}

impl<'a> BoardIntoIterator<'a> {
    /// The board walked over.
    pub closed spec fn source(&self) -> Board {
        *self.board
    }

    /// The position from which the next allocated cell is looked for.
    pub closed spec fn cursor(&self) -> (int, int) {
        (self.col as int, self.row as int)
    }

    /// The next allocated cell at or after the cursor, with whether it is occupied.
    pub fn next(&mut self) -> (r: Option<(Coord, bool)>)
        requires
            old(self).source().wf(),
        ensures
            final(self).source() == old(self).source(),
            match r {
                Some((c, a)) => {
                    &&& old(self).source().allocated(c@.0, c@.1)
                    &&& !before(c@, old(self).cursor())
                    &&& forall|q: (int, int)|
                        #![trigger old(self).source().allocated(q.0, q.1)]
                        old(self).source().allocated(q.0, q.1) && !before(q, old(self).cursor())
                            ==> !before(q, c@)
                    &&& a == old(self).source().live().contains(c@)
                    &&& final(self).cursor() == (c@.0 + 1, c@.1)
                },
                None => forall|q: (int, int)|
                    #![trigger old(self).source().allocated(q.0, q.1)]
                    old(self).source().allocated(q.0, q.1) ==> before(q, old(self).cursor()),
            },
    {
        let ghost start = self.cursor();
        let ghost b = *self.board;
        let (_, hi) = self.board.row_span();
        while self.row < hi
            invariant
                b == *self.board,
                b == *old(self).board,
                start == old(self).cursor(),
                b.wf(),
                hi == b.rows_pos(),
                !before(self.cursor(), start),
                forall|q: (int, int)|
                    #![trigger b.allocated(q.0, q.1)]
                    b.allocated(q.0, q.1) && !before(q, start) ==> !before(q, self.cursor()),
            decreases hi - self.row,
        {
            let (clo, chi) = self.board.col_span(self.row);
            if self.col < clo {
                self.col = clo;
            }
            if self.col < chi {
                let c = Coord { col: self.col, row: self.row };
                proof {
                    b.lemma_allocated_in_range(c.col as int, c.row as int);
                }
                self.col = self.col + 1;
                let a = self.board.is_alive(c.col, c.row);
                proof {
                    assert forall|q: (int, int)|
                        #![trigger b.allocated(q.0, q.1)]
                        b.allocated(q.0, q.1) && !before(q, start) implies !before(q, c@) by {
                        b.lemma_allocated_in_range(q.0, q.1);
                    }
                }
                return Some((c, a));
            }
            self.row = self.row + 1;
            self.col = isize::MIN;
            proof {
                assert forall|q: (int, int)|
                    #![trigger b.allocated(q.0, q.1)]
                    b.allocated(q.0, q.1) && !before(q, start) implies !before(q, self.cursor()) by {
                    b.lemma_allocated_in_range(q.0, q.1);
                }
            }
        }
        proof {
            assert forall|q: (int, int)|
                #![trigger b.allocated(q.0, q.1)]
                b.allocated(q.0, q.1) implies before(q, start) by {
                b.lemma_allocated_in_range(q.0, q.1);
            }
        }
        None
    }
}

impl Board {
    /// Rows allocated at indices `0, 1, ...`.
    pub closed spec fn rows_pos(&self) -> int {
        self.cells.pos_len()
    }

    /// Rows allocated at indices `-1, -2, ...`.
    pub closed spec fn rows_neg(&self) -> int {
        self.cells.neg_len()
    }

    pub open spec fn has_row(&self, r: int) -> bool {
        -self.rows_neg() <= r < self.rows_pos()
    }

    /// Columns allocated at indices `0, 1, ...` of row `r` (none for a row not allocated).
    pub closed spec fn cols_pos(&self, r: int) -> int {
        if self.cells.has(r) {
            self.cells.at(r).pos_len()
        } else {
            0
        }
    }

    /// Columns allocated at indices `-1, -2, ...` of row `r`.
    pub closed spec fn cols_neg(&self, r: int) -> int {
        if self.cells.has(r) {
            self.cells.at(r).neg_len()
        } else {
            0
        }
    }

    /// Whether the cell at column `c` of row `r` has storage.
    pub open spec fn allocated(&self, c: int, r: int) -> bool {
        -self.cols_neg(r) <= c < self.cols_pos(r)
    }

    /// Whether the cell at column `c` of row `r` is occupied.
    pub closed spec fn alive(&self, c: int, r: int) -> bool {
        &&& self.cells.has(r)
        &&& self.cells.at(r).has(c)
        &&& self.cells.at(r).at(c) == Cell::Occupied
    }

    /// The set of occupied coordinates.
    pub open spec fn live(&self) -> Set<(int, int)> {
        Set::new(|p: (int, int)| self.alive(p.0, p.1))
    }

    /// Whether the board has a finite extent to sample from.
    pub closed spec fn bounded(&self) -> bool {
        self.bounded
    }

    /// The occupied-coordinate list, as pairs of integers.
    pub closed spec fn occupied_list(&self) -> Seq<(int, int)> {
        self.occupied@.map_values(|c: Coord| c@)
    }

    pub closed spec fn wf(&self) -> bool {
        &&& self.cells.wf()
        &&& forall|r: int| self.cells.has(r) ==> (#[trigger] self.cells.at(r)).wf()
        &&& self.occupied_list().no_duplicates()
        &&& forall|i: int|
            0 <= i < self.occupied@.len() ==> self.alive(
                #[trigger] self.occupied@[i].col as int,
                self.occupied@[i].row as int,
            )
        &&& forall|c: int, r: int| #[trigger]
            self.alive(c, r) ==> self.occupied_list().contains((c, r))
    }

    /// Both boards have storage for exactly the same cells.
    pub open spec fn same_alloc(&self, other: &Board) -> bool {
        &&& self.rows_pos() == other.rows_pos()
        &&& self.rows_neg() == other.rows_neg()
        &&& forall|r: int| #[trigger] self.cols_pos(r) == other.cols_pos(r)
        &&& forall|r: int| #[trigger] self.cols_neg(r) == other.cols_neg(r)
    }

    /// `self` is `prev` grown by the least storage that covers cell `(c, r)`.
    pub open spec fn grown_for(&self, prev: &Board, c: int, r: int) -> bool {
        &&& self.rows_pos() == if r >= 0 {
            max_int(prev.rows_pos(), r + 1)
        } else {
            prev.rows_pos()
        }
        &&& self.rows_neg() == if r < 0 {
            max_int(prev.rows_neg(), -r)
        } else {
            prev.rows_neg()
        }
        &&& self.cols_pos(r) == if c >= 0 {
            max_int(prev.cols_pos(r), c + 1)
        } else {
            prev.cols_pos(r)
        }
        &&& self.cols_neg(r) == if c < 0 {
            max_int(prev.cols_neg(r), -c)
        } else {
            prev.cols_neg(r)
        }
        &&& forall|q: int| q != r ==> #[trigger] self.cols_pos(q) == prev.cols_pos(q)
        &&& forall|q: int| q != r ==> #[trigger] self.cols_neg(q) == prev.cols_neg(q)
    }

    /// `self` is `prev` grown only where some coordinate of `cells` needed storage:
    /// each side of the row range, and of every row's column range, either kept
    /// its length or ends exactly at such a coordinate.
    pub open spec fn grown_only_for(&self, prev: &Board, cells: Set<(int, int)>) -> bool {
        &&& self.rows_pos() >= prev.rows_pos()
        &&& (self.rows_pos() == prev.rows_pos() || exists|p: (int, int)|
            #[trigger] cells.contains(p) && p.1 + 1 == self.rows_pos())
        &&& self.rows_neg() >= prev.rows_neg()
        &&& (self.rows_neg() == prev.rows_neg() || exists|p: (int, int)|
            #[trigger] cells.contains(p) && -p.1 == self.rows_neg())
        &&& forall|r: int|
            #![trigger self.cols_pos(r)]
            self.cols_pos(r) >= prev.cols_pos(r) && (self.cols_pos(r) == prev.cols_pos(r)
                || exists|p: (int, int)|
                #[trigger] cells.contains(p) && p.1 == r && p.0 + 1 == self.cols_pos(r))
        &&& forall|r: int|
            #![trigger self.cols_neg(r)]
            self.cols_neg(r) >= prev.cols_neg(r) && (self.cols_neg(r) == prev.cols_neg(r)
                || exists|p: (int, int)|
                #[trigger] cells.contains(p) && p.1 == r && -p.0 == self.cols_neg(r))
    }

    /// Columns `lo .. hi` of row `r`, one glyph per cell.
    pub open spec fn draw_cols(&self, r: int, lo: int, hi: int) -> Seq<char>
        decreases hi - lo,
    {
        if hi <= lo {
            Seq::empty()
        } else {
            self.draw_cols(r, lo, hi - 1).push(glyph(self.live().contains((hi - 1, r))))
        }
    }

    /// The allocated cells of rows `lo .. hi`, row after row.
    pub open spec fn draw_rows(&self, lo: int, hi: int) -> Seq<char>
        decreases hi - lo,
    {
        if hi <= lo {
            Seq::empty()
        } else {
            self.draw_rows(lo, hi - 1) + self.draw_cols(
                hi - 1,
                -self.cols_neg(hi - 1),
                self.cols_pos(hi - 1),
            )
        }
    }

    /// Every allocated cell as a glyph, in row-major order.
    pub open spec fn drawing(&self) -> Seq<char> {
        self.draw_rows(-self.rows_neg(), self.rows_pos())
    }

    /// An occupied cell always has storage.
    pub proof fn lemma_alive_allocated(&self, c: int, r: int)
        requires
            self.alive(c, r),
        ensures
            self.allocated(c, r),
            self.has_row(r),
    {
    }

    /// Every row of a well-formed board lies within `isize`, and so does every allocated cell.
    pub proof fn lemma_allocated_in_range(&self, c: int, r: int)
        requires
            self.wf(),
            self.allocated(c, r),
        ensures
            coord_in_range(c, r),
            self.has_row(r),
    {
        assert(self.cells.has(r));
        assert(self.cells.at(r).wf());
    }

    /// A bounded board of at least `MIN_SIDE` by `MIN_SIDE` empty cells,
    /// at columns `0 ..` and rows `0 ..`.
    pub fn new(width: usize, height: usize) -> (b: Board)
        requires
            width <= side_limit(),
            height <= side_limit(),
        ensures
            b.wf(),
            b.bounded(),
            b.live() == Set::<(int, int)>::empty(),
            b.rows_neg() == 0,
            b.rows_pos() == max_int(height as int, MIN_SIDE as int),
            forall|r: int|
                0 <= r < b.rows_pos() ==> #[trigger] b.cols_pos(r) == max_int(
                    width as int,
                    MIN_SIDE as int,
                ) && b.cols_neg(r) == 0,
    {
        let cols = if width > MIN_SIDE {
            width
        } else {
            MIN_SIDE
        };
        let rows = if height > MIN_SIDE {
            height
        } else {
            MIN_SIDE
        };
        let b = Board { cells: Board::allocate(cols, rows), occupied: Vec::new(), bounded: true };
        assert(b.live() =~= Set::<(int, int)>::empty());
        b
    }

    /// A board with no finite extent: nothing is allocated up front.
    pub fn new_unbounded() -> (b: Board)
        ensures
            b.wf(),
            !b.bounded(),
            b.live() == Set::<(int, int)>::empty(),
            b.rows_neg() == 0,
            b.rows_pos() == 0,
    {
        let b = Board { cells: SymVec::new(), occupied: Vec::new(), bounded: false };
        assert(b.live() =~= Set::<(int, int)>::empty());
        b
    }

    fn allocate(cols: usize, rows: usize) -> (t: SymVec<SymVec<Cell>>)
        requires
            cols <= side_limit(),
            rows <= side_limit(),
        ensures
            t.wf(),
            t.neg_len() == 0,
            t.pos_len() == rows,
            forall|r: int|
                0 <= r < rows ==> {
                    &&& (#[trigger] t.at(r)).wf()
                    &&& t.at(r).neg_len() == 0
                    &&& t.at(r).pos_len() == cols
                    &&& forall|c: int| 0 <= c < cols ==> #[trigger] t.at(r).at(c) == Cell::Empty
                },
    {
        let mut tmp: SymVec<SymVec<Cell>> = SymVec::new();
        let mut i: usize = 0;
        while i < rows
            invariant
                i <= rows <= side_limit(),
                cols <= side_limit(),
                tmp.wf(),
                tmp.neg_len() == 0,
                tmp.pos_len() == i,
                forall|r: int|
                    0 <= r < i ==> {
                        &&& (#[trigger] tmp.at(r)).wf()
                        &&& tmp.at(r).neg_len() == 0
                        &&& tmp.at(r).pos_len() == cols
                        &&& forall|c: int|
                            0 <= c < cols ==> #[trigger] tmp.at(r).at(c) == Cell::Empty
                    },
            decreases rows - i,
        {
            let mut line: SymVec<Cell> = SymVec::new();
            let mut j: usize = 0;
            while j < cols
                invariant
                    j <= cols <= side_limit(),
                    line.wf(),
                    line.neg_len() == 0,
                    line.pos_len() == j,
                    forall|c: int| 0 <= c < j ==> #[trigger] line.vec_pos@[c] == Cell::Empty,
                decreases cols - j,
            {
                line.push_front(Cell::Empty);
                j = j + 1;
            }
            assert(forall|c: int| 0 <= c < cols ==> #[trigger] line.at(c) == line.vec_pos@[c]);
            let ghost before = tmp;
            tmp.push_front(line);
            assert(forall|r: int| 0 <= r < i ==> #[trigger] tmp.at(r) == before.at(r));
            i = i + 1;
        }
        tmp
    }

    /// Grows row `line` by the least number of cells that makes column `col` indexable.
    fn extend_row(line: &mut SymVec<Cell>, col: isize)
        requires
            old(line).wf(),
            col > isize::MIN,
            col < isize::MAX,
        ensures
            final(line).wf(),
            final(line).pos_len() == if col >= 0 {
                max_int(old(line).pos_len(), col + 1)
            } else {
                old(line).pos_len()
            },
            final(line).neg_len() == if col < 0 {
                max_int(old(line).neg_len(), -col)
            } else {
                old(line).neg_len()
            },
            forall|c: int| old(line).has(c) ==> #[trigger] final(line).at(c) == old(line).at(c),
            forall|c: int|
                final(line).has(c) && !old(line).has(c) ==> #[trigger] final(line).at(c)
                    == Cell::Empty,
    {
        if col >= 0 {
            while line.need_extend_pos(col)
                invariant
                    0 <= col < isize::MAX,
                    line.wf(),
                    line.vec_neg@ == old(line).vec_neg@,
                    old(line).pos_len() <= line.pos_len() <= max_int(old(line).pos_len(), col + 1),
                    forall|i: int|
                        0 <= i < old(line).pos_len() ==> #[trigger] line.vec_pos@[i]
                            == old(line).vec_pos@[i],
                    forall|i: int|
                        old(line).pos_len() <= i < line.pos_len() ==> #[trigger] line.vec_pos@[i]
                            == Cell::Empty,
                decreases col + 1 - line.pos_len(),
            {
                line.push_front(Cell::Empty);
            }
        } else {
            while line.need_extend_neg(col)
                invariant
                    isize::MIN < col < 0,
                    line.wf(),
                    line.vec_pos@ == old(line).vec_pos@,
                    old(line).neg_len() <= line.neg_len() <= max_int(old(line).neg_len(), -col),
                    forall|i: int|
                        0 <= i < old(line).neg_len() ==> #[trigger] line.vec_neg@[i]
                            == old(line).vec_neg@[i],
                    forall|i: int|
                        old(line).neg_len() <= i < line.neg_len() ==> #[trigger] line.vec_neg@[i]
                            == Cell::Empty,
                decreases -col - line.neg_len(),
            {
                line.push_back(Cell::Empty);
            }
        }
    }

    /// Grows the board by the least storage that makes cell `(col, row)` indexable.
    pub fn ensure_cell(&mut self, col: isize, row: isize)
        requires
            old(self).wf(),
            coord_in_range(col as int, row as int),
        ensures
            final(self).wf(),
            final(self).bounded() == old(self).bounded(),
            final(self).live() == old(self).live(),
            final(self).grown_for(old(self), col as int, row as int),
            final(self).allocated(col as int, row as int),
    {
        if row >= 0 {
            while self.cells.need_extend_pos(row)
                invariant
                    0 <= row < isize::MAX,
                    self.cells.wf(),
                    forall|r: int| self.cells.has(r) ==> (#[trigger] self.cells.at(r)).wf(),
                    self.occupied == old(self).occupied,
                    self.bounded == old(self).bounded,
                    self.cells.vec_neg@ == old(self).cells.vec_neg@,
                    old(self).cells.pos_len() <= self.cells.pos_len() <= max_int(
                        old(self).cells.pos_len(),
                        row + 1,
                    ),
                    forall|i: int|
                        0 <= i < old(self).cells.pos_len() ==> #[trigger] self.cells.vec_pos@[i]
                            == old(self).cells.vec_pos@[i],
                    forall|i: int|
                        old(self).cells.pos_len() <= i < self.cells.pos_len() ==> (
                        #[trigger] self.cells.vec_pos@[i]).pos_len() == 0
                            && self.cells.vec_pos@[i].neg_len() == 0,
                decreases row + 1 - self.cells.pos_len(),
            {
                let ghost before = self.cells;
                self.cells.push_front(SymVec::new());
                assert forall|r: int| self.cells.has(r) implies (#[trigger] self.cells.at(r)).wf() by {
                    if r < before.pos_len() {
                        assert(before.has(r));
                        assert(self.cells.at(r) == before.at(r));
                    }
                }
            }
        } else {
            while self.cells.need_extend_neg(row)
                invariant
                    isize::MIN < row < 0,
                    self.cells.wf(),
                    forall|r: int| self.cells.has(r) ==> (#[trigger] self.cells.at(r)).wf(),
                    self.occupied == old(self).occupied,
                    self.bounded == old(self).bounded,
                    self.cells.vec_pos@ == old(self).cells.vec_pos@,
                    old(self).cells.neg_len() <= self.cells.neg_len() <= max_int(
                        old(self).cells.neg_len(),
                        -row,
                    ),
                    forall|i: int|
                        0 <= i < old(self).cells.neg_len() ==> #[trigger] self.cells.vec_neg@[i]
                            == old(self).cells.vec_neg@[i],
                    forall|i: int|
                        old(self).cells.neg_len() <= i < self.cells.neg_len() ==> (
                        #[trigger] self.cells.vec_neg@[i]).pos_len() == 0
                            && self.cells.vec_neg@[i].neg_len() == 0,
                decreases -row - self.cells.neg_len(),
            {
                let ghost before = self.cells;
                self.cells.push_back(SymVec::new());
                assert forall|r: int| self.cells.has(r) implies (#[trigger] self.cells.at(r)).wf() by {
                    if -r - 1 < before.neg_len() {
                        assert(before.has(r));
                        assert(self.cells.at(r) == before.at(r));
                    }
                }
            }
        }
        let ghost grown = *self;
        assert(forall|r: int| old(self).cells.has(r) ==> #[trigger] grown.cells.at(r) == old(self).cells.at(r));
        Board::extend_row(self.cells.get_mut(row), col);
        assert(forall|c: int, r: int| #[trigger] self.alive(c, r) == old(self).alive(c, r));
        assert(self.live() =~= old(self).live());
        assert forall|c: int, r: int| #[trigger] self.alive(c, r) implies self.occupied_list().contains((c, r)) by {
            assert(old(self).alive(c, r));
        }
    }

    /// Whether the board has a finite extent.
    pub fn is_bounded(&self) -> (r: bool)
        ensures
            r == self.bounded(),
    {
        self.bounded
    }

    /// The allocated rows, as the half-open range `lo .. hi`.
    pub fn row_span(&self) -> (r: (isize, isize))
        requires
            self.wf(),
        ensures
            r.0 == -self.rows_neg(),
            r.1 == self.rows_pos(),
            r.0 <= 0 <= r.1,
    {
        (-(self.cells.len_neg() as isize), self.cells.len_pos() as isize)
    }

    /// The allocated columns of row `row`, as the half-open range `lo .. hi`
    /// (empty for a row without storage).
    pub fn col_span(&self, row: isize) -> (r: (isize, isize))
        requires
            self.wf(),
        ensures
            r.0 == -self.cols_neg(row as int),
            r.1 == self.cols_pos(row as int),
            r.0 <= 0 <= r.1,
    {
        if self.cells.is_available(row) {
            let line = self.cells.get(row);
            proof {
                assert(self.cells.at(row as int).wf());
            }
            (-(line.len_neg() as isize), line.len_pos() as isize)
        } else {
            (0, 0)
        }
    }

    /// Every allocated cell in row-major order, `*` for occupied and `.` for empty.
    pub fn to_string(&self) -> (s: String)
        requires
            self.wf(),
        ensures
            s@ == self.drawing(),
    {
        let mut out = String::new();
        let (lo, hi) = self.row_span();
        let mut y: isize = lo;
        while y < hi
            invariant
                self.wf(),
                lo <= y <= hi,
                lo == -self.rows_neg(),
                hi == self.rows_pos(),
                out@ == self.draw_rows(lo as int, y as int),
            decreases hi - y,
        {
            let (clo, chi) = self.col_span(y);
            let mut x: isize = clo;
            while x < chi
                invariant
                    self.wf(),
                    lo <= y < hi,
                    clo <= x <= chi,
                    clo == -self.cols_neg(y as int),
                    chi == self.cols_pos(y as int),
                    out@ == self.draw_rows(lo as int, y as int) + self.draw_cols(
                        y as int,
                        clo as int,
                        x as int,
                    ),
                decreases chi - x,
            {
                let g = if self.is_alive(x, y) {
                    '*'
                } else {
                    '.'
                };
                push_char(&mut out, g);
                assert(out@ =~= self.draw_rows(lo as int, y as int) + self.draw_cols(
                    y as int,
                    clo as int,
                    x + 1,
                ));
                x = x + 1;
            }
            y = y + 1;
        }
        out
    }

    /// A cursor placed before every allocated cell.
    pub fn into_iter(&self) -> (it: BoardIntoIterator<'_>)
        requires
            self.wf(),
        ensures
            it.source() == *self,
            forall|q: (int, int)|
                #![trigger self.allocated(q.0, q.1)]
                self.allocated(q.0, q.1) ==> !before(q, it.cursor()),
    {
        let (lo, _) = self.row_span();
        let it = BoardIntoIterator { board: self, row: lo, col: isize::MIN };
        proof {
            assert forall|q: (int, int)|
                #![trigger self.allocated(q.0, q.1)]
                self.allocated(q.0, q.1) implies !before(q, it.cursor()) by {
                self.lemma_allocated_in_range(q.0, q.1);
            }
        }
        it
    }

    /// Marks cell `(col, row)` occupied, growing the board as needed.
    pub fn born_at(&mut self, col: isize, row: isize)
        requires
            old(self).wf(),
            coord_in_range(col as int, row as int),
        ensures
            final(self).wf(),
            final(self).bounded() == old(self).bounded(),
            final(self).grown_for(old(self), col as int, row as int),
            final(self).live() == old(self).live().insert((col as int, row as int)),
    {
        self.put(col, row, Cell::Occupied);
    }

    /// Marks cell `(col, row)` empty, growing the board as needed.
    pub fn kill_at(&mut self, col: isize, row: isize)
        requires
            old(self).wf(),
            coord_in_range(col as int, row as int),
        ensures
            final(self).wf(),
            final(self).bounded() == old(self).bounded(),
            final(self).grown_for(old(self), col as int, row as int),
            final(self).live() == old(self).live().remove((col as int, row as int)),
    {
        self.put(col, row, Cell::Empty);
    }

    /// The one place where a cell changes state: the cell and the occupied list move together.
    fn put(&mut self, col: isize, row: isize, cell: Cell)
        requires
            old(self).wf(),
            coord_in_range(col as int, row as int),
        ensures
            final(self).wf(),
            final(self).bounded() == old(self).bounded(),
            final(self).grown_for(old(self), col as int, row as int),
            cell == Cell::Occupied ==> final(self).live() == old(self).live().insert(
                (col as int, row as int),
            ),
            cell == Cell::Empty ==> final(self).live() == old(self).live().remove(
                (col as int, row as int),
            ),
    {
        self.ensure_cell(col, row);
        let ghost mid = *self;
        let was_alive = self.is_alive(col, row);
        let ghost p = (col as int, row as int);
        self.cells.get_mut(row).set(col, cell);
        assert(forall|c: int, r: int|
            (c, r) != p ==> #[trigger] self.alive(c, r) == mid.alive(c, r));
        assert(self.alive(col as int, row as int) == (cell == Cell::Occupied));
        assert(forall|r: int| self.cells.has(r) ==> (#[trigger] self.cells.at(r)).wf()) by {
            assert(forall|r: int| mid.cells.has(r) && r != row ==> #[trigger] self.cells.at(r) == mid.cells.at(r));
        }
        assert(forall|q: int| #[trigger] self.cols_pos(q) == mid.cols_pos(q));
        assert(forall|q: int| #[trigger] self.cols_neg(q) == mid.cols_neg(q));
        let ghost placed = *self;
        if cell == Cell::Occupied {
            if !was_alive {
                self.occupied.push(Coord { col, row });
                assert(self.occupied_list() == mid.occupied_list().push(p));
                assert(self.occupied_list()[mid.occupied_list().len() as int] == p);
                assert forall|c: int, r: int| #[trigger] self.alive(c, r) implies self.occupied_list().contains((c, r)) by {
                    if (c, r) != p {
                        assert(mid.alive(c, r));
                        let k = choose|k: int| 0 <= k < mid.occupied_list().len() && mid.occupied_list()[k] == (c, r);
                        assert(self.occupied_list()[k] == (c, r));
                    }
                }
            } else {
                assert(self.occupied_list() == mid.occupied_list());
                assert forall|c: int, r: int| #[trigger] self.alive(c, r) implies self.occupied_list().contains((c, r)) by {
                    assert(mid.alive(c, r));
                }
            }
            assert(self.live() =~= old(self).live().insert(p));
        } else {
            if was_alive {
                let i = self.find_occupied(col, row);
                let ghost before = self.occupied_list();
                self.occupied.remove(i);
                assert(self.occupied_list() == before.remove(i as int));
                assert forall|c: int, r: int| #[trigger] self.alive(c, r) implies self.occupied_list().contains((c, r)) by {
                    assert(mid.alive(c, r));
                    let k = choose|k: int| 0 <= k < before.len() && before[k] == (c, r);
                    if k < i {
                        assert(self.occupied_list()[k] == (c, r));
                    } else {
                        assert(self.occupied_list()[k - 1] == (c, r));
                    }
                }
            } else {
                assert(self.occupied_list() == mid.occupied_list());
                assert forall|c: int, r: int| #[trigger] self.alive(c, r) implies self.occupied_list().contains((c, r)) by {
                    assert(mid.alive(c, r));
                }
            }
            assert(self.live() =~= old(self).live().remove(p));
        }
        assert(self.cells == placed.cells);
        assert forall|i: int| 0 <= i < self.occupied@.len() implies self.alive(
            #[trigger] self.occupied@[i].col as int,
            self.occupied@[i].row as int,
        ) by {
            let q = self.occupied_list()[i];
            assert(q == (self.occupied@[i].col as int, self.occupied@[i].row as int));
            assert(self.occupied_list().contains(q));
            if q != p {
                assert(mid.occupied_list().contains(q));
                let k = choose|k: int| 0 <= k < mid.occupied_list().len() && mid.occupied_list()[k] == q;
                assert(mid.alive(mid.occupied@[k].col as int, mid.occupied@[k].row as int));
            }
        }
        assert(self.rows_pos() == placed.rows_pos() && self.rows_neg() == placed.rows_neg());
        assert(forall|q: int| #[trigger] self.cols_pos(q) == placed.cols_pos(q));
        assert(forall|q: int| #[trigger] self.cols_neg(q) == placed.cols_neg(q));
    }

    /// The position of `(col, row)` in the occupied list, which holds it.
    fn find_occupied(&self, col: isize, row: isize) -> (i: usize)
        requires
            self.occupied_list().contains((col as int, row as int)),
        ensures
            i < self.occupied@.len(),
            self.occupied_list()[i as int] == (col as int, row as int),
    {
        let mut i: usize = 0;
        while i < self.occupied.len()
            invariant
                i <= self.occupied@.len(),
                self.occupied_list().contains((col as int, row as int)),
                forall|k: int| 0 <= k < i ==> self.occupied_list()[k] != (col as int, row as int),
            decreases self.occupied@.len() - i,
        {
            let c = self.occupied[i];
            if c.col == col && c.row == row {
                return i;
            }
            i = i + 1;
        }
        i
    }

    /// Whether cell `(col, row)` is occupied; never allocates.
    pub fn is_alive(&self, col: isize, row: isize) -> (r: bool)
        requires
            self.wf(),
        ensures
            r == self.live().contains((col as int, row as int)),
    {
        self.get_cell(col, row) != Cell::Empty
    }

    /// The state of cell `(col, row)`; a cell without storage is `Empty`.
    pub fn get_cell(&self, col: isize, row: isize) -> (r: Cell)
        requires
            self.wf(),
        ensures
            r == if self.live().contains((col as int, row as int)) {
                Cell::Occupied
            } else {
                Cell::Empty
            },
    {
        if self.cells.is_available(row) && self.cells.get(row).is_available(col) {
            *self.cells.get(row).get(col)
        } else {
            Cell::Empty
        }
    }

    /// The states of the eight neighbours of `(col, row)`, starting due west
    /// and going clockwise (rows grow downwards).
    pub fn get_vicinity(&self, col: isize, row: isize) -> (r: Vec<bool>)
        requires
            self.wf(),
            coord_in_range(col as int, row as int),
        ensures
            r@ == neighbourhood(self.live(), col as int, row as int),
    {
        let neighbours = vec![
            self.is_alive(col - 1, row),
            self.is_alive(col - 1, row - 1),
            self.is_alive(col, row - 1),
            self.is_alive(col + 1, row - 1),
            self.is_alive(col + 1, row),
            self.is_alive(col + 1, row + 1),
            self.is_alive(col, row + 1),
            self.is_alive(col - 1, row + 1),
        ];
        assert(neighbours@ =~= neighbourhood(self.live(), col as int, row as int));
        neighbours
    }

    /// Every occupied coordinate, each once.
    pub fn get_occupied(&self) -> (r: Vec<&Coord>)
        requires
            self.wf(),
        ensures
            r@.map_values(|c: &Coord| c@).no_duplicates(),
            forall|p: (int, int)|
                #![trigger self.live().contains(p)]
                r@.map_values(|c: &Coord| c@).contains(p) <==> self.live().contains(p),
    {
        let mut out: Vec<&Coord> = Vec::new();
        let mut i: usize = 0;
        while i < self.occupied.len()
            invariant
                i <= self.occupied@.len(),
                out@.len() == i,
                forall|k: int| 0 <= k < i ==> *(#[trigger] out@[k]) == self.occupied@[k],
            decreases self.occupied@.len() - i,
        {
            out.push(&self.occupied[i]);
            i = i + 1;
        }
        proof {
            assert(out@.map_values(|c: &Coord| c@) =~= self.occupied_list());
            assert forall|p: (int, int)| #[trigger] self.live().contains(p) implies self.occupied_list().contains(p) by {
                assert(self.alive(p.0, p.1));
            }
            assert forall|p: (int, int)| self.occupied_list().contains(p) implies #[trigger] self.live().contains(p) by {
                let k = choose|k: int| 0 <= k < self.occupied_list().len() && self.occupied_list()[k] == p;
                assert(self.alive(self.occupied@[k].col as int, self.occupied@[k].row as int));
            }
        }
        out
    }

    /// A cell without storage reads as empty; reading takes `&self`, so it
    /// changes neither the occupied set nor the storage.
    pub proof fn lemma_unallocated_empty(&self, c: int, r: int)
        requires
            self.wf(),
            !self.allocated(c, r),
        ensures
            !self.live().contains((c, r)),
    {
    }

    /// The occupied list holds each occupied coordinate exactly once, and nothing else.
    pub proof fn lemma_occupied_is_live(&self)
        requires
            self.wf(),
        ensures
            self.occupied_list().no_duplicates(),
            self.occupied_list().to_set() == self.live(),
    {
        assert forall|p: (int, int)| self.occupied_list().to_set().contains(p) == self.live().contains(p) by {
            if self.occupied_list().contains(p) {
                let k = choose|k: int| 0 <= k < self.occupied_list().len() && self.occupied_list()[k] == p;
                assert(self.alive(self.occupied@[k].col as int, self.occupied@[k].row as int));
            }
            if self.live().contains(p) {
                assert(self.alive(p.0, p.1));
            }
        }
        assert(self.occupied_list().to_set() =~= self.live());
    }
}

/// Marking the same cell occupied twice is the same as once: the second call changes
/// neither the occupied set nor the storage.
pub proof fn lemma_born_idempotent(b0: Board, b1: Board, b2: Board, c: int, r: int)
    requires
        b0.wf(),
        b1.grown_for(&b0, c, r),
        b1.live() == b0.live().insert((c, r)),
        b2.grown_for(&b1, c, r),
        b2.live() == b1.live().insert((c, r)),
    ensures
        b2.live() == b1.live(),
        b2.same_alloc(&b1),
{
    assert(b2.live() =~= b1.live());
}

/// Killing a coordinate that is not occupied leaves the occupied set as it
/// was, and where the cell already has storage, the storage too.
pub proof fn lemma_kill_unborn(b0: Board, b1: Board, c: int, r: int)
    requires
        b0.wf(),
        !b0.live().contains((c, r)),
        b1.grown_for(&b0, c, r),
        b1.live() == b0.live().remove((c, r)),
    ensures
        b1.live() == b0.live(),
        b0.allocated(c, r) ==> b1.same_alloc(&b0),
{
    assert(b1.live() =~= b0.live());
    if b0.allocated(c, r) {
        b0.lemma_allocated_in_range(c, r);
    }
}

} // verus!
