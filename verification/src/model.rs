//! Mathematical model of a minesweeper board.
//!
//! A [`BoardModel`] holds the board as plain ghost data: the dimensions, the
//! mine target, the game state, and one sequence per cell property, each
//! indexed in row-major order (`index = y * cols + x`). Every contract of
//! the engine is stated over this model.

use vstd::prelude::*;
use vstd::arithmetic::div_mod::{lemma_fundamental_div_mod, lemma_fundamental_div_mod_converse};
use crate::board::{GameState, OpenError, FlagError, Square};

verus! {

/// Number of `true` entries in a boolean sequence; the cardinality of the
/// cell set that the sequence encodes.
pub open spec fn count_true(s: Seq<bool>) -> int
    decreases s.len(),
{
    if s.len() == 0 {
        0
    } else {
        count_true(s.drop_last()) + if s.last() {
            1int
        } else {
            0int
        }
    }
}

pub proof fn lemma_count_true_bounds(s: Seq<bool>)
    ensures
        0 <= count_true(s) <= s.len(),
    decreases s.len(),
{
    if s.len() > 0 {
        lemma_count_true_bounds(s.drop_last());
    }
}

/// Counting one more entry extends the count by that entry's value.
pub proof fn lemma_count_true_take_succ(s: Seq<bool>, i: int)
    requires
        0 <= i < s.len(),
    ensures
        count_true(s.take(i + 1)) == count_true(s.take(i)) + if s[i] {
            1int
        } else {
            0int
        },
{
    let t = s.take(i + 1);
    assert(t.drop_last() =~= s.take(i));
    assert(t.last() == s[i]);
}

pub proof fn lemma_count_true_all(s: Seq<bool>)
    requires
        forall|i: int| 0 <= i < s.len() ==> !s[i],
    ensures
        count_true(s) == 0,
    decreases s.len(),
{
    if s.len() > 0 {
        lemma_count_true_all(s.drop_last());
    }
}

pub open spec fn seq_in_bounds(cols: int, rows: int, x: int, y: int) -> bool {
    0 <= x < cols && 0 <= y < rows
}

/// 1 if the grid cell holds a mine, 0 otherwise (out-of-bounds counts 0).
pub open spec fn seq_mine_ind(mines: Seq<bool>, cols: int, rows: int, x: int, y: int) -> int {
    if seq_in_bounds(cols, rows, x, y) && mines[y * cols + x] {
        1
    } else {
        0
    }
}

/// Number of mines among the up to 8 grid-bounded neighbors of `(x, y)`.
pub open spec fn seq_adj_mines(mines: Seq<bool>, cols: int, rows: int, x: int, y: int) -> int {
    seq_mine_ind(mines, cols, rows, x + 1, y + 1) + seq_mine_ind(mines, cols, rows, x + 1, y)
        + seq_mine_ind(mines, cols, rows, x + 1, y - 1) + seq_mine_ind(mines, cols, rows, x, y - 1)
        + seq_mine_ind(mines, cols, rows, x - 1, y - 1) + seq_mine_ind(mines, cols, rows, x - 1, y)
        + seq_mine_ind(mines, cols, rows, x - 1, y + 1) + seq_mine_ind(mines, cols, rows, x, y + 1)
}

/// The ghost state of a board.
#[verifier::ext_equal]
pub ghost struct BoardModel {
    pub rows: int,
    pub cols: int,
    pub nr_mines: int,
    pub state: GameState,
    /// Absent until the minefield has been generated.
    pub mines: Option<Seq<bool>>,
    pub opened: Seq<bool>,
    pub flagged: Seq<bool>,
    /// Adjacent-mine count per cell; zero stands for "no entry".
    pub counts: Seq<int>,
}

impl BoardModel {
    /// Total number of cells.
    pub open spec fn area(self) -> int {
        self.rows * self.cols
    }

    pub open spec fn in_bounds(self, p: (int, int)) -> bool {
        0 <= p.0 < self.cols && 0 <= p.1 < self.rows
    }

    /// Row-major cell index of a position.
    pub open spec fn idx(self, p: (int, int)) -> int {
        p.1 * self.cols + p.0
    }

    /// Position of a row-major cell index.
    pub open spec fn pos_of(self, i: int) -> (int, int) {
        (i % self.cols, i / self.cols)
    }

    pub open spec fn is_open(self, p: (int, int)) -> bool {
        self.in_bounds(p) && self.opened[self.idx(p)]
    }

    pub open spec fn is_flagged(self, p: (int, int)) -> bool {
        self.in_bounds(p) && self.flagged[self.idx(p)]
    }

    pub open spec fn is_mine(self, p: (int, int)) -> bool {
        self.in_bounds(p) && self.mines is Some && self.mines.unwrap()[self.idx(p)]
    }

    /// Adjacent-mine count of a cell; an absent entry is stored as zero,
    /// and callers treat absence as zero.
    pub open spec fn count_at(self, p: (int, int)) -> int {
        self.counts[self.idx(p)]
    }

    /// Number of mines among the up to 8 grid-bounded neighbors of a cell.
    pub open spec fn adj_mines(self, p: (int, int)) -> int {
        seq_adj_mines(self.mines.unwrap(), self.cols, self.rows, p.0, p.1)
    }

    /// The two cells are distinct, both on the grid, and at most one step
    /// apart in each coordinate.
    pub open spec fn adjacent(self, p: (int, int), q: (int, int)) -> bool {
        self.in_bounds(p) && self.in_bounds(q) && p != q && -1 <= q.0 - p.0 <= 1 && -1 <= q.1
            - p.1 <= 1
    }

    /// The cell may legally be auto-revealed by a cascade.
    pub open spec fn cell_free(self, q: (int, int)) -> bool {
        self.in_bounds(q) && !self.is_mine(q) && !self.is_flagged(q) && !self.is_open(q)
    }

    /// The cascade expands past this cell: free and with no adjacent mines.
    pub open spec fn cell_expands(self, q: (int, int)) -> bool {
        self.cell_free(q) && self.count_at(q) == 0
    }

    /// `q` is connected to `src` through at most `k` intermediate cells, each
    /// of which the cascade expands past.
    pub open spec fn step_reach(self, src: (int, int), q: (int, int), k: nat) -> bool
        decreases k,
    {
        if self.adjacent(src, q) {
            true
        } else if k == 0 {
            false
        } else {
            exists|c: (int, int)|
                self.step_reach(src, c, (k - 1) as nat) && self.cell_expands(c) && self.adjacent(
                    c,
                    q,
                )
        }
    }

    /// `q` is connected to `src` by some chain of expandable cells.
    pub open spec fn connects(self, src: (int, int), q: (int, int)) -> bool {
        exists|k: nat| self.step_reach(src, q, k)
    }

    /// The flood fill started at `src` reveals `q`: `q` is free and connected
    /// to `src` through zero-count free cells.
    pub open spec fn cascade_reaches(self, src: (int, int), q: (int, int)) -> bool {
        self.cell_free(q) && self.connects(src, q)
    }

    /// The model with one more cell opened.
    pub open spec fn with_opened(self, p: (int, int)) -> BoardModel {
        BoardModel { opened: self.opened.update(self.idx(p), true), ..self }
    }

    /// The model with one flag added or removed.
    pub open spec fn with_flag(self, p: (int, int), value: bool) -> BoardModel {
        BoardModel { flagged: self.flagged.update(self.idx(p), value), ..self }
    }

    /// The winning configuration: every mine flagged and nothing else, and
    /// every remaining cell opened.
    pub open spec fn wins(self) -> bool {
        &&& self.mines is Some
        &&& count_true(self.flagged) == self.nr_mines
        &&& count_true(self.opened) + count_true(self.flagged) == self.area()
        &&& self.flagged == self.mines.unwrap()
    }

    /// What the projection shows for a cell. Flags are drawn last and so
    /// win over everything; after a loss every mine is revealed; opened
    /// cells show their adjacency count; anything else stays hidden.
    pub open spec fn square_at(self, p: (int, int)) -> Square {
        if self.state == GameState::Init {
            Square::NotYetOpened
        } else if self.is_flagged(p) {
            Square::Flag
        } else if self.state == GameState::Lost && self.is_mine(p) {
            Square::Mine
        } else if self.is_open(p) {
            Square::Opened(self.count_at(p) as u8)
        } else {
            Square::NotYetOpened
        }
    }

    /// An opened cell on the border of the revealed region: at least one
    /// of its neighbors is still closed.
    pub open spec fn in_frontier(self, p: (int, int)) -> bool {
        self.is_open(p) && exists|q: (int, int)| self.adjacent(p, q) && !self.is_open(q)
    }

    /// Well-formedness: the invariants that hold at every observable point.
    pub open spec fn inv(self) -> bool {
        &&& self.rows >= 1
        &&& self.cols >= 1
        &&& self.nr_mines >= 0
        &&& self.area() > self.nr_mines
        &&& self.area() <= usize::MAX
        &&& self.opened.len() == self.area()
        &&& self.flagged.len() == self.area()
        &&& self.counts.len() == self.area()
        &&& (self.state == GameState::Init <==> self.mines is None)
        &&& (self.mines is Some ==> self.mines.unwrap().len() == self.area())
        &&& (self.mines is Some ==> count_true(self.mines.unwrap()) == self.nr_mines)
        &&& (self.mines is Some ==> forall|p: (int, int)|
            self.in_bounds(p) ==> #[trigger] self.count_at(p) == self.adj_mines(p))
        &&& (forall|i: int|
            0 <= i < self.area() ==> !(#[trigger] self.opened[i] && self.flagged[i]))
        &&& (self.mines is Some ==> forall|i: int|
            0 <= i < self.area() ==> #[trigger] self.opened[i] ==> !self.mines.unwrap()[i])
        &&& (self.state == GameState::Init ==> forall|i: int|
            0 <= i < self.area() ==> !self.opened[i] && !self.flagged[i] && #[trigger] self.counts[i]
                == 0)
    }
}

/// A row-major index computed from an in-bounds position is itself in range.
pub proof fn lemma_idx_bound(cols: int, rows: int, x: int, y: int)
    requires
        0 <= x < cols,
        0 <= y < rows,
    ensures
        0 <= y * cols + x < rows * cols,
{
    assert(0 <= y * cols + x < rows * cols) by (nonlinear_arith)
        requires
            0 <= x < cols,
            0 <= y < rows,
    ;
}

/// Splitting a row-major index back into coordinates inverts `idx`.
pub proof fn lemma_idx_pos(cols: int, x: int, y: int)
    requires
        cols >= 1,
        0 <= x < cols,
        0 <= y,
    ensures
        (y * cols + x) % cols == x,
        (y * cols + x) / cols == y,
{
    lemma_fundamental_div_mod_converse(y * cols + x, cols, y, x);
}

/// Splitting any in-range index gives an in-bounds position that maps back.
pub proof fn lemma_pos_idx(cols: int, rows: int, i: int)
    requires
        cols >= 1,
        rows >= 1,
        0 <= i < rows * cols,
    ensures
        0 <= i % cols < cols,
        0 <= i / cols < rows,
        (i / cols) * cols + i % cols == i,
{
    lemma_fundamental_div_mod(i, cols);
    assert(i % cols < cols);
    assert(0 <= i % cols);
    assert((i / cols) * cols == cols * (i / cols)) by (nonlinear_arith);
    assert(i / cols < rows) by (nonlinear_arith)
        requires
            cols >= 1,
            rows >= 1,
            0 <= i < rows * cols,
            i == cols * (i / cols) + i % cols,
            0 <= i % cols < cols,
    ;
    assert(i / cols >= 0) by (nonlinear_arith)
        requires
            cols >= 1,
            0 <= i,
            i == cols * (i / cols) + i % cols,
            0 <= i % cols < cols,
    ;
}

/// Updating one entry changes the count by the difference at that entry.
pub proof fn lemma_count_true_update(s: Seq<bool>, i: int, v: bool)
    requires
        0 <= i < s.len(),
    ensures
        count_true(s.update(i, v)) == count_true(s) - (if s[i] {
            1int
        } else {
            0int
        }) + (if v {
            1int
        } else {
            0int
        }),
    decreases s.len(),
{
    if i == s.len() - 1 {
        assert(s.update(i, v).drop_last() =~= s.drop_last());
        assert(s.update(i, v).last() == v);
    } else {
        lemma_count_true_update(s.drop_last(), i, v);
        assert(s.update(i, v).drop_last() =~= s.drop_last().update(i, v));
        assert(s.update(i, v).last() == s.last());
    }
}

/// A sequence that is `true` everywhere except possibly at one index holds
/// at least `len - 1` entries.
pub proof fn lemma_count_true_all_but_one(s: Seq<bool>, e: int)
    requires
        forall|j: int| 0 <= j < s.len() && j != e ==> s[j],
    ensures
        count_true(s) >= s.len() - (if 0 <= e < s.len() {
            1int
        } else {
            0int
        }),
    decreases s.len(),
{
    if s.len() > 0 {
        lemma_count_true_all_but_one(s.drop_last(), e);
    }
}

/// Splitting an index yields an in-bounds position that maps back to it.
pub broadcast proof fn lemma_pos_round(m: BoardModel, i: int)
    requires
        m.rows >= 1,
        m.cols >= 1,
        0 <= i < m.area(),
    ensures
        m.in_bounds(#[trigger] m.pos_of(i)),
        m.idx(m.pos_of(i)) == i,
{
    lemma_pos_idx(m.cols, m.rows, i);
}

/// The index of an in-bounds position is in range and maps back to it.
pub broadcast proof fn lemma_idx_round(m: BoardModel, p: (int, int))
    requires
        m.rows >= 1,
        m.cols >= 1,
        m.in_bounds(p),
    ensures
        0 <= #[trigger] m.idx(p) < m.area(),
        m.pos_of(m.idx(p)) == p,
{
    lemma_idx_bound(m.cols, m.rows, p.0, p.1);
    lemma_idx_pos(m.cols, p.0, p.1);
}

/// The board model immediately after mine generation: state `OnGoing`, the
/// given mine layout, nothing opened or flagged yet, and the adjacency
/// counts computed from the layout.
pub open spec fn generated_model(rows: int, cols: int, nr: int, mines: Seq<bool>) -> BoardModel {
    let base = BoardModel {
        rows: rows,
        cols: cols,
        nr_mines: nr,
        state: GameState::OnGoing,
        mines: Some(mines),
        opened: Seq::new((rows * cols) as nat, |i: int| false),
        flagged: Seq::new((rows * cols) as nat, |i: int| false),
        counts: Seq::empty(),
    };
    BoardModel {
        counts: Seq::new((rows * cols) as nat, |i: int| base.adj_mines(base.pos_of(i))),
        ..base
    }
}

/// Behavior of `open`: the relation between the board before the call, the
/// board after it, the position given, and the result returned.
pub open spec fn open_post(
    pre: BoardModel,
    post: BoardModel,
    p: (int, int),
    r: Result<GameState, OpenError>,
) -> bool {
    if pre.state == GameState::Lost {
        post == pre && r == Err::<GameState, OpenError>(OpenError::AlreadyLost)
    } else if pre.state == GameState::Init {
        post == pre && r == Err::<GameState, OpenError>(OpenError::MinesNotInit)
    } else if pre.state == GameState::Won {
        post == pre && r == Err::<GameState, OpenError>(OpenError::AlreadyWon)
    } else if !pre.in_bounds(p) {
        post == pre && r == Err::<GameState, OpenError>(OpenError::OutOfBounds)
    } else if pre.is_mine(p) {
        post == BoardModel { state: GameState::Lost, ..pre } && r == Ok::<
            GameState,
            OpenError,
        >(GameState::Lost)
    } else if pre.is_flagged(p) {
        post == pre && r == Err::<GameState, OpenError>(OpenError::AlreadyFlagged)
    } else if pre.is_open(p) {
        post == pre && r == Err::<GameState, OpenError>(OpenError::AlreadyOpen)
    } else {
        open_success_post(pre, post, p, r)
    }
}

/// Behavior of a successful `open` of a safe cell: the cell is revealed, a
/// zero-count cell additionally reveals its whole cascade region, and the
/// win evaluator decides the resulting state.
pub open spec fn open_success_post(
    pre: BoardModel,
    post: BoardModel,
    p: (int, int),
    r: Result<GameState, OpenError>,
) -> bool {
    let mid = pre.with_opened(p);
    &&& post.rows == pre.rows
    &&& post.cols == pre.cols
    &&& post.nr_mines == pre.nr_mines
    &&& post.mines == pre.mines
    &&& post.flagged == pre.flagged
    &&& post.counts == pre.counts
    &&& post.opened.len() == pre.opened.len()
    &&& if pre.count_at(p) == 0 {
        forall|q: (int, int)|
            post.in_bounds(q) ==> (#[trigger] post.is_open(q) <==> mid.is_open(q)
                || mid.cascade_reaches(p, q))
    } else {
        post.opened == mid.opened
    }
    &&& post.state == if post.wins() {
        GameState::Won
    } else {
        GameState::OnGoing
    }
    &&& r == Ok::<GameState, OpenError>(post.state)
}

/// Behavior of `flag`: the relation between the board before the call, the
/// board after it, the position given, and the result returned.
pub open spec fn flag_post(
    pre: BoardModel,
    post: BoardModel,
    p: (int, int),
    r: Result<GameState, FlagError>,
) -> bool {
    if pre.state == GameState::Lost {
        post == pre && r == Err::<GameState, FlagError>(FlagError::AlreadyLost)
    } else if pre.state == GameState::Init {
        post == pre && r == Err::<GameState, FlagError>(FlagError::MinesNotInit)
    } else if pre.state == GameState::Won {
        post == pre && r == Err::<GameState, FlagError>(FlagError::AlreadyWon)
    } else if !pre.in_bounds(p) {
        post == pre && r == Err::<GameState, FlagError>(FlagError::OutOfBounds)
    } else if pre.is_open(p) {
        post == pre && r == Err::<GameState, FlagError>(FlagError::AlreadyOpen)
    } else if pre.is_flagged(p) {
        // Unflagging never triggers a win check.
        post == pre.with_flag(p, false) && r == Ok::<GameState, FlagError>(GameState::OnGoing)
    } else {
        &&& post.rows == pre.rows
        &&& post.cols == pre.cols
        &&& post.nr_mines == pre.nr_mines
        &&& post.mines == pre.mines
        &&& post.opened == pre.opened
        &&& post.counts == pre.counts
        &&& post.flagged == pre.flagged.update(pre.idx(p), true)
        &&& post.state == if post.wins() {
            GameState::Won
        } else {
            GameState::OnGoing
        }
        &&& r == Ok::<GameState, FlagError>(post.state)
    }
}

} // verus!
