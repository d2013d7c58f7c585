//! The minesweeper board engine: a deterministic state machine that places
//! mines, reveals cells through a cascading flood fill, tracks flags, and
//! evaluates the win and loss conditions.

use vstd::prelude::*;
use vstd::pervasive::unreached;
use crate::model::{
    BoardModel, count_true, flag_post, generated_model, open_post,
    lemma_count_true_all, lemma_count_true_all_but_one, lemma_count_true_bounds,
    lemma_count_true_take_succ,
    lemma_count_true_update, lemma_idx_bound, lemma_idx_round, lemma_pos_idx, lemma_pos_round,
    seq_adj_mines, seq_mine_ind,
};
use crate::rng::{
    MineRng, generation_complete, lemma_generation_unique, lemma_mine_set_at_finite, mine_set_at,
    pair_at, pair_history,
};

verus! {

broadcast use lemma_pos_round, lemma_idx_round;

#[derive(Debug, Clone, Copy, PartialEq, Eq, Structural)]
pub enum GameState {
    Init,
    OnGoing,
    Lost,
    Won,
}

#[derive(Debug, Clone, Copy, PartialEq, Eq, Structural)]
pub enum OpenError {
    AlreadyOpen,
    AlreadyFlagged,
    AlreadyLost,
    AlreadyWon,
    MinesNotInit,
    OutOfBounds,
}

#[derive(Debug, Clone, Copy, PartialEq, Eq, Structural)]
pub enum FlagError {
    AlreadyOpen,
    AlreadyLost,
    AlreadyWon,
    MinesNotInit,
    OutOfBounds,
}

/// What the projection shows for one cell; view-only, never stored.
#[derive(Debug, Clone, Copy, PartialEq, Eq, Structural)]
pub enum Square {
    Mine,
    Opened(u8),
    Flag,
    NotYetOpened,
}

/// The board state. Cell properties are stored as one boolean (or count)
/// per cell, in row-major order; the mine layout stays absent until the
/// first coordinate is opened.
pub struct Board {
    pub rows: usize,
    pub cols: usize,
    pub nr_mines: usize,
    mines: Option<Vec<bool>>,
    open_fields: Vec<bool>,
    flagged_fields: Vec<bool>,
    counts: Vec<u8>,
    state: GameState,
}

impl View for Board {
    type V = BoardModel;

    closed spec fn view(&self) -> BoardModel {
        BoardModel {
            rows: self.rows as int,
            cols: self.cols as int,
            nr_mines: self.nr_mines as int,
            state: self.state,
            mines: if self.mines is Some {
                Some(self.mines.unwrap()@)
            } else {
                None
            },
            opened: self.open_fields@,
            flagged: self.flagged_fields@,
            counts: Seq::new(self.counts@.len(), |i: int| self.counts@[i] as int),
        }
    }
}

/// A vector of `n` copies of `value`.
fn filled<T: Copy>(n: usize, value: T) -> (v: Vec<T>)
    ensures
        v@.len() == n as int,
        forall|i: int| 0 <= i < n as int ==> v@[i] == value,
{
    let mut v: Vec<T> = Vec::new();
    while v.len() < n
        invariant
            v@.len() <= n as int,
            forall|i: int| 0 <= i < v@.len() ==> v@[i] == value,
        decreases n as int - v@.len(),
    {
        v.push(value);
    }
    v
}

/// Number of `true` entries in a boolean vector.
fn count_trues(v: &Vec<bool>) -> (c: usize)
    ensures
        c as int == count_true(v@),
        c <= v@.len(),
{
    let mut c: usize = 0;
    let mut i: usize = 0;
    while i < v.len()
        invariant
            i <= v@.len(),
            c <= i,
            c as int == count_true(v@.take(i as int)),
        decreases v@.len() - i,
    {
        proof {
            lemma_count_true_take_succ(v@, i as int);
        }
        if v[i] {
            c = c + 1;
        }
        i = i + 1;
    }
    proof {
        assert(v@.take(v@.len() as int) =~= v@);
    }
    c
}

/// Whether two equally long boolean vectors hold the same entries.
fn vec_bool_eq(a: &Vec<bool>, b: &Vec<bool>) -> (r: bool)
    requires
        a@.len() == b@.len(),
    ensures
        r == (a@ == b@),
{
    let mut i: usize = 0;
    while i < a.len()
        invariant
            i <= a@.len(),
            a@.len() == b@.len(),
            forall|j: int| 0 <= j < i as int ==> a@[j] == b@[j],
        decreases a@.len() - i,
    {
        if a[i] != b[i] {
            return false;
        }
        i = i + 1;
    }
    proof {
        assert(a@ =~= b@);
    }
    true
}

/// Whether the grid cell `(x, y)` holds a mine.
fn mine_at(mines: &Vec<bool>, rows: usize, cols: usize, x: usize, y: usize) -> (b: bool)
    requires
        rows >= 1,
        cols >= 1,
        rows * cols <= usize::MAX,
        mines@.len() == rows as int * cols as int,
        x < cols,
        y < rows,
    ensures
        b == (seq_mine_ind(mines@, cols as int, rows as int, x as int, y as int) == 1),
{
    proof {
        lemma_idx_bound(cols as int, rows as int, x as int, y as int);
    }
    mines[y * cols + x]
}

/// The adjacent-mine count of the grid cell `(x, y)`.
fn mine_count_at(mines: &Vec<bool>, rows: usize, cols: usize, x: usize, y: usize) -> (c: u8)
    requires
        rows >= 1,
        cols >= 1,
        rows * cols <= usize::MAX,
        mines@.len() == rows as int * cols as int,
        x < cols,
        y < rows,
    ensures
        c as int == seq_adj_mines(mines@, cols as int, rows as int, x as int, y as int),
{
    let mut c: u8 = 0;
    if x + 1 < cols && y + 1 < rows && mine_at(mines, rows, cols, x + 1, y + 1) {
        c = c + 1;
    }
    if x + 1 < cols && mine_at(mines, rows, cols, x + 1, y) {
        c = c + 1;
    }
    if x + 1 < cols && y >= 1 && mine_at(mines, rows, cols, x + 1, y - 1) {
        c = c + 1;
    }
    if y >= 1 && mine_at(mines, rows, cols, x, y - 1) {
        c = c + 1;
    }
    if x >= 1 && y >= 1 && mine_at(mines, rows, cols, x - 1, y - 1) {
        c = c + 1;
    }
    if x >= 1 && mine_at(mines, rows, cols, x - 1, y) {
        c = c + 1;
    }
    if x >= 1 && y + 1 < rows && mine_at(mines, rows, cols, x - 1, y + 1) {
        c = c + 1;
    }
    if y + 1 < rows && mine_at(mines, rows, cols, x, y + 1) {
        c = c + 1;
    }
    c
}

/// Whether cell index `i` occurs in the list.
pub open spec fn idx_in(s: Seq<usize>, i: int) -> bool {
    exists|j: int| 0 <= j < s.len() && s[j] == i
}

proof fn lemma_idx_in_push(s: Seq<usize>, x: usize)
    ensures
        forall|i: int| #[trigger] idx_in(s.push(x), i) <==> (idx_in(s, i) || i == x as int),
{
    assert forall|i: int| #[trigger] idx_in(s.push(x), i) implies (idx_in(s, i) || i == x as int) by {
        let j = choose|j: int| 0 <= j < s.push(x).len() && s.push(x)[j] == i;
        if j < s.len() {
            assert(s[j] == i);
        }
    }
    assert forall|i: int| (idx_in(s, i) || i == x as int) implies #[trigger] idx_in(s.push(x), i) by {
        if i == x as int {
            assert(s.push(x)[s.len() as int] == x);
        } else {
            let j = choose|j: int| 0 <= j < s.len() && s[j] == i;
            assert(s.push(x)[j] == i);
        }
    }
}

proof fn lemma_idx_in_remove0(s: Seq<usize>)
    requires
        s.len() > 0,
    ensures
        forall|i: int| #[trigger] idx_in(s.remove(0), i) ==> idx_in(s, i),
        forall|i: int| #[trigger] idx_in(s, i) ==> idx_in(s.remove(0), i) || i == s[0] as int,
{
    assert forall|i: int| #[trigger] idx_in(s.remove(0), i) implies idx_in(s, i) by {
        let j = choose|j: int| 0 <= j < s.remove(0).len() && s.remove(0)[j] == i;
        assert(s[j + 1] == i);
    }
    assert forall|i: int| #[trigger] idx_in(s, i) implies idx_in(s.remove(0), i) || i == s[0] as int by {
        let j = choose|j: int| 0 <= j < s.len() && s[j] == i;
        if j > 0 {
            assert(s.remove(0)[j - 1] == i);
        }
    }
}

/// Insert a cell index into the ascending pending list, keeping one copy of
/// each index.
fn insert_sorted(v: &mut Vec<usize>, x: usize)
    ensures
        forall|i: int| #[trigger] idx_in(final(v)@, i) <==> (idx_in(old(v)@, i) || i == x as int),
{
    let mut k: usize = 0;
    while k < v.len() && v[k] < x
        invariant
            k <= v@.len(),
        decreases v@.len() - k,
    {
        k = k + 1;
    }
    if k < v.len() && v[k] == x {
        proof {
            assert(v@[k as int] == x);
            assert(idx_in(v@, x as int));
        }
        return;
    }
    let ghost oldv = v@;
    v.insert(k, x);
    proof {
        oldv.insert_ensures(k as int, x);
        assert forall|i: int| #[trigger] idx_in(v@, i) implies (idx_in(oldv, i) || i == x as int) by {
            let j = choose|j: int| 0 <= j < v@.len() && v@[j] == i;
            if j < k as int {
                assert(oldv[j] == i);
            } else if j > k as int {
                assert(oldv[j - 1] == i);
            }
        }
        assert forall|i: int| (idx_in(oldv, i) || i == x as int) implies #[trigger] idx_in(v@, i) by {
            if i == x as int {
                assert(v@[k as int] == x);
            } else {
                let j = choose|j: int| 0 <= j < oldv.len() && oldv[j] == i;
                if j < k as int {
                    assert(v@[j] == i);
                } else {
                    assert(v@[j + 1] == i);
                }
            }
        }
    }
}

/// Once the frontier is exhausted, every cell that the flood fill reaches
/// has been visited: each chain of zero-count free cells out of `s` was
/// expanded to its end.
proof fn lemma_cascade_complete(
    m: BoardModel,
    s: (int, int),
    visited: Seq<bool>,
    targets: Seq<usize>,
    q: (int, int),
    k: nat,
)
    requires
        m.rows >= 1,
        m.cols >= 1,
        visited.len() == m.area(),
        forall|q2: (int, int)|
            #[trigger] m.adjacent(s, q2) && !m.is_open(q2) ==> visited[m.idx(q2)],
        forall|c: (int, int), q2: (int, int)|
            idx_in(targets, #[trigger] m.idx(c)) && m.cell_expands(c) && #[trigger] m.adjacent(
                c,
                q2,
            ) && !m.is_open(q2) ==> visited[m.idx(q2)],
        forall|i: int|
            0 <= i < m.area() ==> (#[trigger] idx_in(targets, i) <==> visited[i] && m.cell_free(
                m.pos_of(i),
            )),
        m.step_reach(s, q, k),
        m.in_bounds(q),
        !m.is_open(q),
    ensures
        visited[m.idx(q)],
    decreases k,
{
    broadcast use lemma_pos_round, lemma_idx_round;

    if !m.adjacent(s, q) {
        let c = choose|c: (int, int)|
            m.step_reach(s, c, (k - 1) as nat) && m.cell_expands(c) && m.adjacent(c, q);
        lemma_cascade_complete(m, s, visited, targets, c, (k - 1) as nat);
        assert(idx_in(targets, m.idx(c)));
    }
}

/// Attempt budget for one mine draw: practically unreachable, it only
/// bounds the rejection sampling so that the loop provably terminates.
pub const DRAW_BUDGET: usize = 0xFFFF_FFFF;

impl Board {
    /// The board invariants hold.
    pub open spec fn wf(&self) -> bool {
        self@.inv()
    }

    pub fn new(rows: usize, cols: usize, nr_mines: usize) -> (r: Board)
        requires
            rows * cols > nr_mines,
            rows * cols <= usize::MAX,
        ensures
            r.wf(),
            r@.rows == rows as int,
            r@.cols == cols as int,
            r@.nr_mines == nr_mines as int,
            r@.state == GameState::Init,
            r@.mines is None,
    {
        proof {
            assert(rows as int >= 1 && cols as int >= 1) by (nonlinear_arith)
                requires
                    rows as int * cols as int > nr_mines as int,
                    rows as int >= 0,
                    cols as int >= 0,
                    nr_mines as int >= 0,
            ;
        }
        let area = rows * cols;
        Board {
            rows,
            cols,
            nr_mines,
            mines: None,
            open_fields: filled(area, false),
            flagged_fields: filled(area, false),
            counts: filled(area, 0u8),
            state: GameState::Init,
        }
    }

    pub fn lost(&self) -> (r: bool)
        ensures
            r == (self@.state == GameState::Lost),
    {
        self.state == GameState::Lost
    }

    pub fn ongoing(&self) -> (r: bool)
        ensures
            r == (self@.state == GameState::OnGoing),
    {
        self.state == GameState::OnGoing
    }

    pub fn initialized(&self) -> (r: bool)
        ensures
            r == (self@.state != GameState::Init),
    {
        !(self.state == GameState::Init)
    }

    /// Clear all per-game state, back to an unused board.
    fn reset_board(&mut self)
        requires
            old(self).wf(),
        ensures
            final(self).wf(),
            final(self)@.rows == old(self)@.rows,
            final(self)@.cols == old(self)@.cols,
            final(self)@.nr_mines == old(self)@.nr_mines,
            final(self)@.state == GameState::Init,
            final(self)@.mines is None,
            final(self)@.opened.len() == old(self)@.area(),
            final(self)@.flagged.len() == old(self)@.area(),
            final(self)@.counts.len() == old(self)@.area(),
            forall|i: int| 0 <= i < old(self)@.area() ==> !(#[trigger] final(self)@.opened[i]),
            forall|i: int| 0 <= i < old(self)@.area() ==> !(#[trigger] final(self)@.flagged[i]),
            forall|i: int| 0 <= i < old(self)@.area() ==> #[trigger] final(self)@.counts[i] == 0,
    {
        let area = self.rows * self.cols;
        self.flagged_fields = filled(area, false);
        self.open_fields = filled(area, false);
        self.counts = filled(area, 0u8);
        self.state = GameState::Init;
        self.mines = None;
    }

    /// Recompute the adjacency counts from the current mine layout.
    #[verifier::loop_isolation(false)]
    fn set_counts(&mut self)
        requires
            old(self)@.rows >= 1,
            old(self)@.cols >= 1,
            old(self)@.area() <= usize::MAX,
            old(self)@.mines is Some,
            old(self)@.mines.unwrap().len() == old(self)@.area(),
        ensures
            final(self)@.rows == old(self)@.rows,
            final(self)@.cols == old(self)@.cols,
            final(self)@.nr_mines == old(self)@.nr_mines,
            final(self)@.state == old(self)@.state,
            final(self)@.mines == old(self)@.mines,
            final(self)@.opened == old(self)@.opened,
            final(self)@.flagged == old(self)@.flagged,
            final(self)@.counts.len() == old(self)@.area(),
            forall|p: (int, int)|
                final(self)@.in_bounds(p) ==> #[trigger] final(self)@.count_at(p)
                    == final(self)@.adj_mines(p),
    {
        let ghost m0 = self@;
        let area = self.rows * self.cols;
        let mut new_counts: Vec<u8> = Vec::new();
        let mv = match &self.mines {
            Some(mv) => mv,
            None => unreached(),
        };
        let mut i: usize = 0;
        while i < area
            invariant
                new_counts@.len() == i as int,
                i <= area,
                forall|j: int|
                    0 <= j < i as int ==> (#[trigger] new_counts@[j]) as int == seq_adj_mines(
                        mv@,
                        m0.cols,
                        m0.rows,
                        j % m0.cols,
                        j / m0.cols,
                    ),
            decreases area as int - i,
        {
            proof {
                lemma_pos_idx(m0.cols, m0.rows, i as int);
            }
            let x = i % self.cols;
            let y = i / self.cols;
            new_counts.push(mine_count_at(mv, self.rows, self.cols, x, y));
            i = i + 1;
        }
        self.counts = new_counts;
        proof {
            assert forall|p: (int, int)|
                self@.in_bounds(p) implies #[trigger] self@.count_at(p) == self@.adj_mines(p) by {
                let ii = self@.idx(p);
                assert(self@.pos_of(ii) == p);
                assert((new_counts@[ii]) as int == seq_adj_mines(
                    mv@,
                    m0.cols,
                    m0.rows,
                    ii % m0.cols,
                    ii / m0.cols,
                ));
            }
        }
    }

    /// Generate the minefield by seeded rejection sampling, excluding the
    /// start position; then compute the adjacency counts, switch to
    /// `OnGoing`, and open the start cell (which cannot fail).
    #[verifier::loop_isolation(false)]
    #[verifier::rlimit(60)]
    pub fn init_mines(&mut self, start_position: (usize, usize), seed: Option<u64>)
        requires
            old(self).wf(),
            old(self)@.in_bounds((start_position.0 as int, start_position.1 as int)),
        ensures
            final(self).wf(),
            final(self)@.rows == old(self)@.rows,
            final(self)@.cols == old(self)@.cols,
            final(self)@.nr_mines == old(self)@.nr_mines,
            final(self)@.mines is Some,
            !final(self)@.is_mine((start_position.0 as int, start_position.1 as int)),
            final(self)@.state == GameState::OnGoing || final(self)@.state == GameState::Won,
            seed matches Some(sd) ==> forall|i: nat|
                i <= DRAW_BUDGET as nat && #[trigger] generation_complete(
                    sd,
                    old(self)@.cols,
                    old(self)@.rows,
                    (start_position.0 as int, start_position.1 as int),
                    old(self)@.nr_mines,
                    i,
                ) ==> forall|p: (int, int)|
                    #[trigger] final(self)@.is_mine(p) <==> mine_set_at(
                        sd,
                        old(self)@.cols,
                        old(self)@.rows,
                        (start_position.0 as int, start_position.1 as int),
                        i,
                    ).contains(p),
            exists|g: GameState|
                #[trigger] open_post(
                    generated_model(
                        old(self)@.rows,
                        old(self)@.cols,
                        old(self)@.nr_mines,
                        final(self)@.mines.unwrap(),
                    ),
                    final(self)@,
                    (start_position.0 as int, start_position.1 as int),
                    Ok(g),
                ),
    {
        broadcast use vstd::set::group_set_axioms;

        let ghost m0 = self@;
        let ghost startp = (start_position.0 as int, start_position.1 as int);
        let mut rng = match seed {
            Some(sd) => MineRng::new_seeded(sd),
            None => MineRng::new_from_os(),
        };
        let area = self.rows * self.cols;
        let mut mines_vec: Vec<bool> = filled(area, false);
        let mut found: usize = 0;
        let ghost mut draws: nat = 0nat;
        let ghost mut clean: bool = true;
        proof {
            lemma_count_true_all(mines_vec@);
            if let Some(sd) = seed {
                assert(mine_set_at(sd, m0.cols, m0.rows, startp, 0nat) =~= Set::<(int, int)>::empty());
            }
        }
        while found < self.nr_mines
            invariant
                mines_vec@.len() == m0.area(),
                found as int == count_true(mines_vec@),
                found <= self.nr_mines,
                !mines_vec@[m0.idx(startp)],
                seed matches Some(sd) ==> rng.seed@ == Some(sd),
                seed matches Some(sd) ==> clean ==> rng.history@ == pair_history(
                    m0.cols,
                    m0.rows,
                    draws,
                ),
                seed matches Some(sd) ==> clean ==> forall|p: (int, int)|
                    #[trigger] mine_set_at(sd, m0.cols, m0.rows, startp, draws).contains(p) <==> (
                    m0.in_bounds(p) && mines_vec@[m0.idx(p)]),
                seed matches Some(sd) ==> clean ==> mine_set_at(
                    sd,
                    m0.cols,
                    m0.rows,
                    startp,
                    draws,
                ).len() == found as int,
                seed matches Some(sd) ==> clean ==> forall|j: nat|
                    j < draws ==> #[trigger] mine_set_at(sd, m0.cols, m0.rows, startp, j).len()
                        < m0.nr_mines,
                seed matches Some(sd) ==> !clean ==> forall|j: nat|
                    j <= DRAW_BUDGET as nat ==> #[trigger] mine_set_at(
                        sd,
                        m0.cols,
                        m0.rows,
                        startp,
                        j,
                    ).len() < m0.nr_mines,
            decreases m0.nr_mines - found as int,
        {
            let ghost found_entry = found;
            let ghost draws_entry = draws;
            let mut attempts: usize = 0;
            let mut got: bool = false;
            // draw until a fresh cell appears or the attempt budget is spent
            while !got && attempts < DRAW_BUDGET
                invariant
                    attempts <= DRAW_BUDGET,
                    draws == draws_entry + attempts as nat,
                    mines_vec@.len() == m0.area(),
                    found as int == count_true(mines_vec@),
                    found <= self.nr_mines,
                    !mines_vec@[m0.idx(startp)],
                    got ==> found as int == found_entry as int + 1,
                    !got ==> found == found_entry,
                    seed matches Some(sd) ==> rng.seed@ == Some(sd),
                    seed matches Some(sd) ==> clean ==> rng.history@ == pair_history(
                        m0.cols,
                        m0.rows,
                        draws,
                    ),
                    seed matches Some(sd) ==> clean ==> forall|p: (int, int)|
                        #[trigger] mine_set_at(sd, m0.cols, m0.rows, startp, draws).contains(p)
                            <==> (m0.in_bounds(p) && mines_vec@[m0.idx(p)]),
                    seed matches Some(sd) ==> clean ==> mine_set_at(
                        sd,
                        m0.cols,
                        m0.rows,
                        startp,
                        draws,
                    ).len() == found as int,
                    seed matches Some(sd) ==> clean ==> forall|j: nat|
                        j < draws ==> #[trigger] mine_set_at(sd, m0.cols, m0.rows, startp, j).len()
                            < m0.nr_mines,
                decreases DRAW_BUDGET - attempts,
            {
                let ghost found0 = found;
                let ghost hist0 = rng.history@;
                let x = rng.next_below(self.cols);
                let y = rng.next_below(self.rows);
                attempts = attempts + 1;
                let ghost drawn = (x as int, y as int);
                proof {
                    if clean {
                        if let Some(sd) = seed {
                            assert(pair_history(m0.cols, m0.rows, draws + 1) =~= rng.history@);
                            assert(pair_at(sd, m0.cols, m0.rows, draws) == drawn);
                            lemma_mine_set_at_finite(sd, m0.cols, m0.rows, startp, draws);
                        }
                    }
                }
                if x != start_position.0 || y != start_position.1 {
                    proof {
                        lemma_idx_bound(m0.cols, m0.rows, x as int, y as int);
                        assert((y as int) * m0.cols + x as int == m0.idx(drawn));
                        assert(m0.pos_of(m0.idx(drawn)) == drawn);
                    }
                    let mi = y * self.cols + x;
                    if !mines_vec[mi] {
                        let ghost bits0 = mines_vec@;
                        mines_vec[mi] = true;
                        found = found + 1;
                        got = true;
                        proof {
                            lemma_count_true_update(bits0, mi as int, true);
                            if clean {
                                if let Some(sd) = seed {
                                    let prev = mine_set_at(sd, m0.cols, m0.rows, startp, draws);
                                    assert(!prev.contains(drawn));
                                    assert(drawn != startp);
                                    assert(mine_set_at(
                                        sd,
                                        m0.cols,
                                        m0.rows,
                                        startp,
                                        (draws + 1) as nat,
                                    ) == prev.insert(drawn));
                                    assert forall|p2: (int, int)|
                                        #[trigger] mine_set_at(
                                            sd,
                                            m0.cols,
                                            m0.rows,
                                            startp,
                                            (draws + 1) as nat,
                                        ).contains(p2) <==> (m0.in_bounds(p2) && mines_vec@[m0.idx(
                                        p2,
                                    )]) by {
                                        if p2 != drawn && m0.in_bounds(p2) && m0.idx(p2)
                                            == mi as int {
                                            assert(p2 == m0.pos_of(mi as int));
                                        }
                                    }
                                }
                            }
                        }
                    } else {
                        proof {
                            if clean {
                                if let Some(sd) = seed {
                                    let prev = mine_set_at(sd, m0.cols, m0.rows, startp, draws);
                                    assert(prev.contains(drawn));
                                    assert(prev.insert(drawn) =~= prev);
                                    assert(mine_set_at(
                                        sd,
                                        m0.cols,
                                        m0.rows,
                                        startp,
                                        (draws + 1) as nat,
                                    ) == prev);
                                }
                            }
                        }
                    }
                } else {
                    proof {
                        if clean {
                            if let Some(sd) = seed {
                                assert(drawn == startp);
                                assert(mine_set_at(sd, m0.cols, m0.rows, startp, (draws + 1) as nat)
                                    == mine_set_at(sd, m0.cols, m0.rows, startp, draws));
                            }
                        }
                    }
                }
                proof {
                    if clean {
                        if let Some(sd) = seed {
                            assert forall|j: nat|
                                j < draws + 1 implies #[trigger] mine_set_at(
                                sd,
                                m0.cols,
                                m0.rows,
                                startp,
                                j,
                            ).len() < m0.nr_mines by {
                                if j == draws {
                                    assert(mine_set_at(sd, m0.cols, m0.rows, startp, j).len()
                                        == found0 as int);
                                }
                            }
                        }
                    }
                    draws = draws + 1nat;
                }
            }
            if !got {
                // the stream kept repeating known cells for the whole budget;
                // fall back to the lowest unmined cell other than the start
                proof {
                    if let Some(sd) = seed {
                        if clean {
                            assert(draws >= DRAW_BUDGET as nat);
                            assert forall|j: nat|
                                j <= DRAW_BUDGET as nat implies #[trigger] mine_set_at(
                                sd,
                                m0.cols,
                                m0.rows,
                                startp,
                                j,
                            ).len() < m0.nr_mines by {
                                if j == draws {
                                    assert(mine_set_at(sd, m0.cols, m0.rows, startp, j).len()
                                        == found as int);
                                }
                            }
                        }
                    }
                    clean = false;
                }
                proof {
                    lemma_idx_bound(m0.cols, m0.rows, startp.0, startp.1);
                }
                let start_idx = start_position.1 * self.cols + start_position.0;
                proof {
                    assert(start_idx as int == m0.idx(startp));
                }
                let mut fi: usize = 0;
                let mut placed: bool = false;
                while fi < area && !placed
                    invariant
                        fi <= area,
                        mines_vec@.len() == m0.area(),
                        found as int == count_true(mines_vec@),
                        found <= self.nr_mines,
                        !mines_vec@[m0.idx(startp)],
                        placed ==> found as int == found_entry as int + 1,
                        !placed ==> found == found_entry,
                        !placed ==> forall|j: int|
                            0 <= j < fi as int ==> mines_vec@[j] || j == start_idx as int,
                    decreases (if placed { 0int } else { 1int }), area as int - fi as int,
                {
                    if fi != start_idx && !mines_vec[fi] {
                        let ghost bits0 = mines_vec@;
                        mines_vec[fi] = true;
                        found = found + 1;
                        placed = true;
                        proof {
                            lemma_count_true_update(bits0, fi as int, true);
                        }
                    } else {
                        fi = fi + 1;
                    }
                }
                proof {
                    if !placed {
                        lemma_count_true_all_but_one(mines_vec@, start_idx as int);
                        assert(false);
                    }
                }
            }
        }
        proof {
            if let Some(sd) = seed {
                if clean {
                    assert(generation_complete(sd, m0.cols, m0.rows, startp, m0.nr_mines, draws));
                }
            }
        }
        self.reset_board();
        self.mines = Some(mines_vec);
        self.state = GameState::OnGoing;
        self.set_counts();
        let ghost gen = generated_model(m0.rows, m0.cols, m0.nr_mines, self@.mines.unwrap());
        proof {
            assert forall|i: int| 0 <= i < m0.area() implies self@.counts[i] == gen.counts[i] by {
                let p = m0.pos_of(i);
                assert(self@.count_at(p) == self@.adj_mines(p));
                assert(self@.idx(p) == i);
            }
            assert forall|i: int| 0 <= i < m0.area() implies self@.opened[i] == gen.opened[i] by {}
            assert forall|i: int|
                0 <= i < m0.area() implies self@.flagged[i] == gen.flagged[i] by {}
            assert(self@ =~~= gen);
            assert forall|j: int|
                0 <= j < self@.area() && #[trigger] self@.opened[j] implies !self@.mines.unwrap()[j] by {}
            assert(self@.inv());
        }
        let first = self.open(start_position);
        proof {
            assert(first == Ok::<GameState, OpenError>(self@.state));
            assert(open_post(gen, self@, startp, Ok(self@.state)));
            if let Some(sd) = seed {
                assert forall|i: nat|
                    i <= DRAW_BUDGET as nat && #[trigger] generation_complete(
                        sd,
                        m0.cols,
                        m0.rows,
                        startp,
                        m0.nr_mines,
                        i,
                    ) implies forall|p: (int, int)|
                    #[trigger] self@.is_mine(p) <==> mine_set_at(
                        sd,
                        m0.cols,
                        m0.rows,
                        startp,
                        i,
                    ).contains(p) by {
                    if clean {
                        lemma_generation_unique(sd, m0.cols, m0.rows, startp, m0.nr_mines, i, draws);
                    } else {
                        assert(mine_set_at(sd, m0.cols, m0.rows, startp, i).len() < m0.nr_mines);
                        assert(false);
                    }
                }
            }
        }
    }

    /// The in-bounds neighbors of a cell, in a fixed clockwise order.
    pub fn iter_neighbors(&self, pos: (usize, usize)) -> (r: Vec<(usize, usize)>)
        requires
            self.wf(),
            self@.in_bounds((pos.0 as int, pos.1 as int)),
        ensures
            forall|j: int|
                0 <= j < r@.len() ==> self@.adjacent(
                    (pos.0 as int, pos.1 as int),
                    ((#[trigger] r@[j]).0 as int, r@[j].1 as int),
                ),
            forall|q: (int, int)|
                #[trigger] self@.adjacent((pos.0 as int, pos.1 as int), q) ==> r@.contains(
                    (q.0 as usize, q.1 as usize),
                ),
            r@.no_duplicates(),
    {
        let x = pos.0;
        let y = pos.1;
        let mut v: Vec<(usize, usize)> = Vec::new();
        if x + 1 < self.cols && y + 1 < self.rows {
            v.push((x + 1, y + 1));
        }
        if x + 1 < self.cols {
            v.push((x + 1, y));
        }
        if x + 1 < self.cols && y >= 1 {
            v.push((x + 1, y - 1));
        }
        if y >= 1 {
            v.push((x, y - 1));
        }
        if x >= 1 && y >= 1 {
            v.push((x - 1, y - 1));
        }
        if x >= 1 {
            v.push((x - 1, y));
        }
        if x >= 1 && y + 1 < self.rows {
            v.push((x - 1, y + 1));
        }
        if y + 1 < self.rows {
            v.push((x, y + 1));
        }
        proof {
            broadcast use vstd::seq_lib::group_seq_properties;

            assert forall|q: (int, int)|
                #[trigger] self@.adjacent((x as int, y as int), q) implies v@.contains(
                (q.0 as usize, q.1 as usize),
            ) by {
                assert(q.0 == x as int - 1 || q.0 == x as int || q.0 == x as int + 1);
                assert(q.1 == y as int - 1 || q.1 == y as int || q.1 == y as int + 1);
            }
        }
        v
    }

    /// Whether cell index `i` holds a mine; only meaningful once the mines
    /// have been generated.
    fn has_mine(&self, i: usize) -> (b: bool)
        requires
            self.wf(),
            self@.mines is Some,
            (i as int) < self@.area(),
        ensures
            b == self@.mines.unwrap()[i as int],
    {
        match &self.mines {
            Some(m) => m[i],
            None => unreached(),
        }
    }

    /// The win evaluator: decides `Won` exactly when every mine is flagged,
    /// nothing else is flagged, and every remaining cell is opened.
    fn check_win_condition(&self) -> (r: GameState)
        requires
            self.wf(),
        ensures
            self@.state == GameState::OnGoing ==> r == (if self@.wins() {
                GameState::Won
            } else {
                GameState::OnGoing
            }),
            self@.state != GameState::OnGoing ==> r == self@.state,
    {
        match self.state {
            GameState::OnGoing => {
                let nf = count_trues(&self.flagged_fields);
                let no = count_trues(&self.open_fields);
                let area = self.rows * self.cols;
                if nf == self.nr_mines && no == area - nf {
                    match &self.mines {
                        Some(m) => {
                            if vec_bool_eq(&self.flagged_fields, m) {
                                GameState::Won
                            } else {
                                GameState::OnGoing
                            }
                        },
                        None => unreached(),
                    }
                } else {
                    GameState::OnGoing
                }
            },
            GameState::Init => GameState::Init,
            GameState::Lost => GameState::Lost,
            GameState::Won => GameState::Won,
        }
    }

    /// The cells that a cascade started at `pos` reveals: the frontier is
    /// an ordered pending list, processed lowest index first, expanding
    /// through zero-count free cells and collecting every free cell reached.
    #[verifier::loop_isolation(false)]
    #[verifier::rlimit(60)]
    fn cascade_targets(&self, pos: (usize, usize)) -> (r: Vec<usize>)
        requires
            self.wf(),
            self@.state == GameState::OnGoing,
            self@.in_bounds((pos.0 as int, pos.1 as int)),
        ensures
            forall|j: int| 0 <= j < r@.len() ==> (#[trigger] r@[j]) < self@.area(),
            r@.no_duplicates(),
            forall|j: int|
                0 <= j < r@.len() ==> self@.cascade_reaches(
                    (pos.0 as int, pos.1 as int),
                    self@.pos_of(#[trigger] r@[j] as int),
                ),
            forall|q: (int, int)|
                #[trigger] self@.cascade_reaches((pos.0 as int, pos.1 as int), q) ==> idx_in(
                    r@,
                    self@.idx(q),
                ),
    {
        let ghost m = self@;
        let ghost s = (pos.0 as int, pos.1 as int);
        let area = self.rows * self.cols;
        let mut visited: Vec<bool> = filled(area, false);
        let mut pending: Vec<usize> = Vec::new();
        let mut targets: Vec<usize> = Vec::new();

        // seed the frontier with the unopened neighbors of the start cell
        let neigh = self.iter_neighbors(pos);
        let mut k: usize = 0;
        while k < neigh.len()
            invariant
                k <= neigh@.len(),
                forall|i: int|
                    #[trigger] idx_in(pending@, i) ==> 0 <= i < m.area() && m.adjacent(
                        s,
                        m.pos_of(i),
                    ) && !m.is_open(m.pos_of(i)),
                forall|j: int|
                    0 <= j < k as int ==> m.is_open(
                        ((#[trigger] neigh@[j]).0 as int, neigh@[j].1 as int),
                    ) || idx_in(
                        pending@,
                        m.idx((neigh@[j].0 as int, neigh@[j].1 as int)),
                    ),
            decreases neigh@.len() - k,
        {
            let q = neigh[k];
            let nx = q.0;
            let ny = q.1;
            proof {
                assert(m.adjacent(s, (nx as int, ny as int)));
                lemma_idx_bound(m.cols, m.rows, nx as int, ny as int);
            }
            let ni = ny * self.cols + nx;
            proof {
                assert(ni as int == m.idx((nx as int, ny as int)));
                assert(m.pos_of(ni as int) == (nx as int, ny as int));
            }
            if !self.open_fields[ni] {
                insert_sorted(&mut pending, ni);
            }
            k = k + 1;
        }

        proof {
            lemma_count_true_bounds(visited@);
            assert forall|i: int|
                0 <= i < m.area() && (idx_in(pending@, i) || visited@[i]) implies
                #[trigger] m.connects(s, m.pos_of(i)) by {
                assert(m.adjacent(s, m.pos_of(i)));
                assert(m.step_reach(s, m.pos_of(i), 0));
            }
        }

        // process the frontier: pop the lowest pending index, skip what was
        // already handled or must stay closed, collect free cells, and
        // expand past those with no adjacent mines
        while pending.len() > 0
            invariant
                visited@.len() == m.area(),
                count_true(visited@) <= m.area(),
                targets@.no_duplicates(),
                forall|i: int| #[trigger] idx_in(pending@, i) ==> 0 <= i < m.area(),
                forall|j: int| 0 <= j < targets@.len() ==> (#[trigger] targets@[j]) < m.area(),
                forall|i: int|
                    0 <= i < m.area() && (idx_in(pending@, i) || visited@[i])
                        ==> #[trigger] m.connects(s, m.pos_of(i)),
                forall|i: int|
                    0 <= i < m.area() ==> (#[trigger] idx_in(targets@, i) <==> visited@[i]
                        && m.cell_free(m.pos_of(i))),
                forall|q: (int, int)|
                    #[trigger] m.adjacent(s, q) && !m.is_open(q) ==> idx_in(pending@, m.idx(q))
                        || visited@[m.idx(q)],
                forall|c: (int, int), q: (int, int)|
                    idx_in(targets@, #[trigger] m.idx(c)) && m.cell_expands(c)
                        && #[trigger] m.adjacent(c, q) && !m.is_open(q) ==> idx_in(
                        pending@,
                        m.idx(q),
                    ) || visited@[m.idx(q)],
            decreases m.area() - count_true(visited@), pending@.len(),
        {
            let ghost pend0 = pending@;
            let ni = pending.remove(0);
            proof {
                lemma_idx_in_remove0(pend0);
                assert(pend0[0] == ni);
                assert(idx_in(pend0, ni as int));
                assert((ni as int) < m.area());
                assert(m.connects(s, m.pos_of(ni as int)));
            }
            if visited[ni] {
                continue;
            }
            let ghost vis0 = visited@;
            visited[ni] = true;
            proof {
                lemma_count_true_update(vis0, ni as int, true);
                lemma_count_true_bounds(visited@);
            }
            let nx = ni % self.cols;
            let ny = ni / self.cols;
            let ghost np = m.pos_of(ni as int);
            proof {
                assert(np == (nx as int, ny as int));
                assert(m.in_bounds(np));
            }
            if self.has_mine(ni) {
                // never open a mine by cascade
                continue;
            }
            if self.flagged_fields[ni] {
                // never open a flagged cell by cascade
                continue;
            }
            if self.open_fields[ni] {
                continue;
            }
            proof {
                assert(m.cell_free(np));
            }
            let ghost targ0 = targets@;
            targets.push(ni);
            proof {
                lemma_idx_in_push(targ0, ni);
                assert(!idx_in(targ0, ni as int));
                assert forall|a: int, b: int|
                    0 <= a < targets@.len() && 0 <= b < targets@.len() && a != b implies
                    targets@[a] != targets@[b] by {
                    if a == targ0.len() as int && b < targ0.len() {
                        assert(idx_in(targ0, targ0[b] as int));
                    } else if b == targ0.len() as int && a < targ0.len() {
                        assert(idx_in(targ0, targ0[a] as int));
                    }
                }
                assert(targets@.no_duplicates());
            }
            if self.counts[ni] == 0 {
                proof {
                    assert(m.cell_expands(np));
                }
                let neigh2 = self.iter_neighbors((nx, ny));
                let mut k2: usize = 0;
                while k2 < neigh2.len()
                    invariant
                        k2 <= neigh2@.len(),
                        forall|i: int| #[trigger] idx_in(pending@, i) ==> 0 <= i < m.area(),
                        forall|i: int|
                            0 <= i < m.area() && (idx_in(pending@, i) || visited@[i])
                                ==> #[trigger] m.connects(s, m.pos_of(i)),
                        forall|q: (int, int)|
                            #[trigger] m.adjacent(s, q) && !m.is_open(q) ==> idx_in(
                                pending@,
                                m.idx(q),
                            ) || visited@[m.idx(q)],
                        forall|c: (int, int), q: (int, int)|
                            idx_in(targ0, #[trigger] m.idx(c)) && m.cell_expands(c)
                                && #[trigger] m.adjacent(c, q) && !m.is_open(q) ==> idx_in(
                                pending@,
                                m.idx(q),
                            ) || visited@[m.idx(q)],
                        forall|j: int|
                            0 <= j < k2 as int ==> m.is_open(
                                ((#[trigger] neigh2@[j]).0 as int, neigh2@[j].1 as int),
                            ) || idx_in(
                                pending@,
                                m.idx((neigh2@[j].0 as int, neigh2@[j].1 as int)),
                            ) || visited@[m.idx((neigh2@[j].0 as int, neigh2@[j].1 as int))],
                    decreases neigh2@.len() - k2,
                {
                    let q2 = neigh2[k2];
                    let qx = q2.0;
                    let qy = q2.1;
                    proof {
                        assert(m.adjacent(np, (qx as int, qy as int)));
                        lemma_idx_bound(m.cols, m.rows, qx as int, qy as int);
                    }
                    let qi = qy * self.cols + qx;
                    proof {
                        assert(qi as int == m.idx((qx as int, qy as int)));
                        assert(m.pos_of(qi as int) == (qx as int, qy as int));
                    }
                    if !visited[qi] && !self.open_fields[qi] {
                        proof {
                            // the new frontier cell is reached through np
                            let k3 = choose|k3: nat| m.step_reach(s, np, k3);
                            assert(m.step_reach(s, np, k3) && m.cell_expands(np) && m.adjacent(
                                np,
                                (qx as int, qy as int),
                            ));
                            assert(m.step_reach(s, (qx as int, qy as int), k3 + 1));
                            assert(m.connects(s, (qx as int, qy as int)));
                            assert((qx as int, qy as int) == m.pos_of(
                                qy as int * m.cols + qx as int,
                            ));
                        }
                        insert_sorted(&mut pending, qi);
                    }
                    k2 = k2 + 1;
                }
                proof {
                    // the closure invariant now also holds around np itself
                    assert forall|c: (int, int), q: (int, int)|
                        idx_in(targets@, #[trigger] m.idx(c)) && m.cell_expands(c)
                            && #[trigger] m.adjacent(c, q) && !m.is_open(q) implies idx_in(
                        pending@,
                        m.idx(q),
                    ) || visited@[m.idx(q)] by {
                        if m.idx(c) == ni as int {
                            assert(c == np);
                            assert(neigh2@.contains((q.0 as usize, q.1 as usize)));
                            let jj = choose|jj: int|
                                0 <= jj < neigh2@.len() && neigh2@[jj] == (
                                    q.0 as usize,
                                    q.1 as usize,
                                );
                            assert(m.is_open(q) || idx_in(pending@, m.idx(q)) || visited@[m.idx(
                                q,
                            )]);
                        } else {
                            assert(idx_in(targ0, m.idx(c)));
                        }
                    }
                }
            } else {
                proof {
                    assert(m.count_at(np) != 0);
                    assert(!m.cell_expands(np));
                }
            }
        }

        proof {
            // soundness: every collected cell is cascade-reachable
            assert forall|j: int|
                0 <= j < targets@.len() implies m.cascade_reaches(
                s,
                m.pos_of(#[trigger] targets@[j] as int),
            ) by {
                assert(idx_in(targets@, targets@[j] as int));
            }
            // completeness: every cascade-reachable cell was collected
            assert forall|q: (int, int)| #[trigger] m.cascade_reaches(s, q) implies idx_in(
                targets@,
                m.idx(q),
            ) by {
                let k4 = choose|k4: nat| m.step_reach(s, q, k4);
                lemma_cascade_complete(m, s, visited@, targets@, q, k4);
            }
        }
        targets
    }

    /// Open a cell. A mine loses the game; a safe cell is revealed, and a
    /// zero-count cell reveals its whole cascade region; the win evaluator
    /// then decides the resulting state.
    #[verifier::loop_isolation(false)]
    #[verifier::rlimit(60)]
    pub fn open(&mut self, pos: (usize, usize)) -> (r: Result<GameState, OpenError>)
        requires
            old(self).wf(),
        ensures
            final(self).wf(),
            open_post(old(self)@, final(self)@, (pos.0 as int, pos.1 as int), r),
    {
        let ghost pre = self@;
        let ghost p = (pos.0 as int, pos.1 as int);
        match self.state {
            GameState::Lost => Err(OpenError::AlreadyLost),
            GameState::Init => Err(OpenError::MinesNotInit),
            GameState::Won => Err(OpenError::AlreadyWon),
            GameState::OnGoing => {
                if pos.0 >= self.cols || pos.1 >= self.rows {
                    Err(OpenError::OutOfBounds)
                } else {
                    proof {
                        lemma_idx_bound(pre.cols, pre.rows, p.0, p.1);
                    }
                    let i = pos.1 * self.cols + pos.0;
                    if self.has_mine(i) {
                        self.state = GameState::Lost;
                        proof {
                            assert(self@ =~~= BoardModel { state: GameState::Lost, ..pre });
                            assert forall|q: (int, int)|
                                self@.in_bounds(q) implies #[trigger] self@.count_at(q)
                                == self@.adj_mines(q) by {
                                assert(pre.count_at(q) == pre.adj_mines(q));
                            }
                            assert(self@.inv());
                        }
                        Ok(GameState::Lost)
                    } else if self.flagged_fields[i] {
                        Err(OpenError::AlreadyFlagged)
                    } else if self.open_fields[i] {
                        Err(OpenError::AlreadyOpen)
                    } else {
                        self.open_fields[i] = true;
                        let ghost mid = self@;
                        proof {
                            assert(mid =~~= pre.with_opened(p));
                            assert forall|q: (int, int)|
                                mid.in_bounds(q) implies #[trigger] mid.count_at(q)
                                == mid.adj_mines(q) by {
                                assert(pre.count_at(q) == pre.adj_mines(q));
                            }
                            assert forall|j: int|
                                0 <= j < mid.area() implies !(#[trigger] mid.opened[j]
                                && mid.flagged[j]) by {
                                if j != i as int {
                                    assert(mid.opened[j] == pre.opened[j]);
                                }
                            }
                            assert forall|j: int|
                                0 <= j < mid.area() && #[trigger] mid.opened[j] implies
                                !mid.mines.unwrap()[j] by {
                                if j != i as int {
                                    assert(mid.opened[j] == pre.opened[j]);
                                }
                            }
                            assert(mid.inv());
                        }
                        if self.counts[i] == 0 {
                            let to_open = self.cascade_targets(pos);
                            let mut j: usize = 0;
                            while j < to_open.len()
                                invariant
                                    j <= to_open@.len(),
                                    self@.rows == mid.rows,
                                    self@.cols == mid.cols,
                                    self@.nr_mines == mid.nr_mines,
                                    self@.state == mid.state,
                                    self@.mines == mid.mines,
                                    self@.flagged == mid.flagged,
                                    self@.counts == mid.counts,
                                    self@.opened.len() == mid.opened.len(),
                                    forall|t: int|
                                        0 <= t < mid.area() ==> (#[trigger] self@.opened[t] == (
                                        mid.opened[t] || idx_in(to_open@.take(j as int), t))),
                                decreases to_open@.len() - j,
                            {
                                let t = to_open[j];
                                proof {
                                    assert(to_open@.take(j as int + 1) =~= to_open@.take(
                                        j as int,
                                    ).push(t));
                                    lemma_idx_in_push(to_open@.take(j as int), t);
                                }
                                self.open_fields[t] = true;
                                j = j + 1;
                            }
                            proof {
                                assert(to_open@.take(to_open@.len() as int) =~= to_open@);
                                // every revealed cell is free, so the invariants hold
                                assert forall|t: int|
                                    0 <= t < self@.area() implies !(#[trigger] self@.opened[t]
                                    && self@.flagged[t]) by {
                                    if !mid.opened[t] && self@.opened[t] {
                                        assert(idx_in(to_open@, t));
                                        assert(mid.cell_free(mid.pos_of(t)));
                                    }
                                }
                                assert forall|t: int|
                                    0 <= t < self@.area() && #[trigger] self@.opened[t] implies
                                    !self@.mines.unwrap()[t] by {
                                    if !mid.opened[t] {
                                        assert(idx_in(to_open@, t));
                                        assert(mid.cell_free(mid.pos_of(t)));
                                    }
                                }
                                assert forall|q: (int, int)|
                                    self@.in_bounds(q) implies #[trigger] self@.count_at(q)
                                    == self@.adj_mines(q) by {
                                    assert(mid.count_at(q) == mid.adj_mines(q));
                                }
                                assert(self@.inv());
                                // the revealed region is exactly the cascade region
                                assert forall|q: (int, int)|
                                    self@.in_bounds(q) implies (#[trigger] self@.is_open(q)
                                    <==> mid.is_open(q) || mid.cascade_reaches(p, q)) by {
                                    if idx_in(to_open@, mid.idx(q)) {
                                        let jj = choose|jj: int|
                                            0 <= jj < to_open@.len() && to_open@[jj] == mid.idx(
                                                q,
                                            );
                                        assert(mid.cascade_reaches(p, mid.pos_of(
                                            to_open@[jj] as int,
                                        )));
                                    }
                                }
                            }
                        }
                        proof {
                            assert(self@.inv());
                        }
                        let w = self.check_win_condition();
                        let ghost done = self@;
                        if w == GameState::Won {
                            self.state = GameState::Won;
                            proof {
                                assert(self@ =~~= BoardModel { state: GameState::Won, ..done });
                                assert forall|q: (int, int)|
                                    self@.in_bounds(q) implies #[trigger] self@.count_at(q)
                                    == self@.adj_mines(q) by {
                                    assert(done.count_at(q) == done.adj_mines(q));
                                }
                                assert(self@.inv());
                            }
                            Ok(GameState::Won)
                        } else {
                            Ok(GameState::OnGoing)
                        }
                    }
                }
            },
        }
    }

    /// Number of mines neighboring a cell, counted directly from the
    /// mine layout.
    fn _neighboring_mines(&self, pos: (usize, usize)) -> (c: u8)
        requires
            self.wf(),
            self@.mines is Some,
            self@.in_bounds((pos.0 as int, pos.1 as int)),
        ensures
            c as int == self@.adj_mines((pos.0 as int, pos.1 as int)),
    {
        match &self.mines {
            Some(mv) => mine_count_at(mv, self.rows, self.cols, pos.0, pos.1),
            None => unreached(),
        }
    }

    /// What the projection shows for the cell `(x, y)`.
    fn square_cell(&self, x: usize, y: usize) -> (sq: Square)
        requires
            self.wf(),
            self@.in_bounds((x as int, y as int)),
        ensures
            sq == self@.square_at((x as int, y as int)),
    {
        match self.state {
            GameState::Init => Square::NotYetOpened,
            _ => {
                proof {
                    lemma_idx_bound(self@.cols, self@.rows, x as int, y as int);
                }
                let i = y * self.cols + x;
                if self.flagged_fields[i] {
                    Square::Flag
                } else if self.lost() && self.has_mine(i) {
                    Square::Mine
                } else if self.open_fields[i] {
                    Square::Opened(self.counts[i])
                } else {
                    Square::NotYetOpened
                }
            },
        }
    }

    /// The read-only view of the whole board, row by row: what a renderer
    /// shows, and the only place where the mine layout becomes visible
    /// (after a loss).
    #[verifier::loop_isolation(false)]
    pub fn get_board_state(&self) -> (r: Vec<Vec<Square>>)
        requires
            self.wf(),
        ensures
            r@.len() == self@.rows,
            forall|y: int| 0 <= y < self@.rows ==> (#[trigger] r@[y])@.len() == self@.cols,
            forall|x: int, y: int|
                0 <= x < self@.cols && 0 <= y < self@.rows ==> #[trigger] r@[y]@[x]
                    == self@.square_at((x, y)),
    {
        let mut grid: Vec<Vec<Square>> = Vec::new();
        let mut y: usize = 0;
        while y < self.rows
            invariant
                y <= self@.rows,
                grid@.len() == y as int,
                forall|yy: int| 0 <= yy < y as int ==> (#[trigger] grid@[yy])@.len() == self@.cols,
                forall|x: int, yy: int|
                    0 <= x < self@.cols && 0 <= yy < y as int ==> #[trigger] grid@[yy]@[x]
                        == self@.square_at((x, yy)),
            decreases self@.rows - y as int,
        {
            let mut row: Vec<Square> = Vec::new();
            let mut x: usize = 0;
            while x < self.cols
                invariant
                    x <= self@.cols,
                    row@.len() == x as int,
                    forall|xx: int|
                        0 <= xx < x as int ==> #[trigger] row@[xx] == self@.square_at(
                            (xx, y as int),
                        ),
                decreases self@.cols - x as int,
            {
                row.push(self.square_cell(x, y));
                x = x + 1;
            }
            grid.push(row);
            y = y + 1;
        }
        grid
    }

    /// Whether the opened cell `(x, y)` still has a closed neighbor.
    #[verifier::loop_isolation(false)]
    fn has_closed_neighbor(&self, x: usize, y: usize) -> (b: bool)
        requires
            self.wf(),
            self@.in_bounds((x as int, y as int)),
        ensures
            b == exists|q: (int, int)|
                self@.adjacent((x as int, y as int), q) && !self@.is_open(q),
    {
        let ghost m = self@;
        let neigh = self.iter_neighbors((x, y));
        let mut k: usize = 0;
        while k < neigh.len()
            invariant
                k <= neigh@.len(),
                forall|j: int|
                    0 <= j < k as int ==> m.is_open(
                        ((#[trigger] neigh@[j]).0 as int, neigh@[j].1 as int),
                    ),
            decreases neigh@.len() - k,
        {
            let q = neigh[k];
            proof {
                assert(m.adjacent((x as int, y as int), (q.0 as int, q.1 as int)));
                lemma_idx_bound(m.cols, m.rows, q.0 as int, q.1 as int);
                assert((q.1 as int) * m.cols + q.0 as int == m.idx((q.0 as int, q.1 as int)));
            }
            let qi = q.1 * self.cols + q.0;
            if !self.open_fields[qi] {
                proof {
                    assert(!m.is_open((q.0 as int, q.1 as int)));
                }
                return true;
            }
            k = k + 1;
        }
        proof {
            assert forall|q: (int, int)|
                m.adjacent((x as int, y as int), q) implies m.is_open(q) by {
                assert(neigh@.contains((q.0 as usize, q.1 as usize)));
                let j = choose|j: int|
                    0 <= j < neigh@.len() && neigh@[j] == (q.0 as usize, q.1 as usize);
                assert(m.is_open((neigh@[j].0 as int, neigh@[j].1 as int)));
            }
        }
        false
    }

    /// The frontier: every opened cell that still has a closed neighbor.
    #[verifier::loop_isolation(false)]
    pub fn get_frontier(&self) -> (r: Vec<(usize, usize)>)
        requires
            self.wf(),
        ensures
            r@.no_duplicates(),
            forall|j: int|
                0 <= j < r@.len() ==> self@.in_frontier(
                    ((#[trigger] r@[j]).0 as int, r@[j].1 as int),
                ),
            forall|p: (int, int)|
                #[trigger] self@.in_frontier(p) ==> r@.contains((p.0 as usize, p.1 as usize)),
    {
        let ghost m = self@;
        let area = self.rows * self.cols;
        let mut r: Vec<(usize, usize)> = Vec::new();
        let mut i: usize = 0;
        while i < area
            invariant
                i <= area,
                r@.no_duplicates(),
                forall|j: int|
                    0 <= j < r@.len() ==> m.in_frontier(
                        ((#[trigger] r@[j]).0 as int, r@[j].1 as int),
                    ),
                forall|j: int|
                    0 <= j < r@.len() ==> m.idx(((#[trigger] r@[j]).0 as int, r@[j].1 as int))
                        < i as int,
                forall|p: (int, int)|
                    #[trigger] m.in_frontier(p) && m.idx(p) < i as int ==> r@.contains(
                        (p.0 as usize, p.1 as usize),
                    ),
            decreases area as int - i as int,
        {
            let x = i % self.cols;
            let y = i / self.cols;
            proof {
                lemma_pos_idx(m.cols, m.rows, i as int);
                assert(m.pos_of(i as int) == (x as int, y as int));
                assert(m.idx((x as int, y as int)) == i as int);
            }
            let ghost r0 = r@;
            if self.open_fields[i] && self.has_closed_neighbor(x, y) {
                r.push((x, y));
                proof {
                    assert(m.in_frontier((x as int, y as int)));
                    assert forall|p: (int, int)|
                        #[trigger] m.in_frontier(p) && m.idx(p) < i as int + 1 implies r@.contains(
                        (p.0 as usize, p.1 as usize),
                    ) by {
                        if m.idx(p) == i as int {
                            assert(p == m.pos_of(i as int));
                            assert(r@[r@.len() - 1] == (p.0 as usize, p.1 as usize));
                        } else {
                            assert(r0.contains((p.0 as usize, p.1 as usize)));
                            let j = choose|j: int|
                                0 <= j < r0.len() && r0[j] == (p.0 as usize, p.1 as usize);
                            assert(r@[j] == (p.0 as usize, p.1 as usize));
                        }
                    }
                    assert forall|a: int, b: int|
                        0 <= a < r@.len() && 0 <= b < r@.len() && a != b implies r@[a] != r@[b] by {
                        if a < r0.len() && b < r0.len() {
                            assert(r0[a] == r@[a] && r0[b] == r@[b]);
                        } else if a >= r0.len() {
                            assert(r@[a] == (x, y));
                            assert(r@[b] == r0[b]);
                            if r@[a] == r@[b] {
                                assert(m.idx((r0[b].0 as int, r0[b].1 as int)) < i as int);
                                assert(false);
                            }
                        } else {
                            assert(r@[b] == (x, y));
                            assert(r@[a] == r0[a]);
                            if r@[a] == r@[b] {
                                assert(m.idx((r0[a].0 as int, r0[a].1 as int)) < i as int);
                                assert(false);
                            }
                        }
                    }
                    assert(r@.no_duplicates());
                }
            } else {
                proof {
                    assert(!m.is_open((x as int, y as int)) || !exists|q: (int, int)|
                        m.adjacent((x as int, y as int), q) && !m.is_open(q));
                    assert(!m.in_frontier((x as int, y as int)));
                    assert forall|p: (int, int)|
                        #[trigger] m.in_frontier(p) && m.idx(p) < i as int + 1 implies r@.contains(
                        (p.0 as usize, p.1 as usize),
                    ) by {
                        if m.idx(p) == i as int {
                            assert(p == m.pos_of(i as int));
                        } else {
                            assert(r0.contains((p.0 as usize, p.1 as usize)));
                        }
                    }
                }
            }
            i = i + 1;
        }
        r
    }

    /// Toggle a flag: flagging an unflagged closed cell may win the game;
    /// unflagging never triggers a win check.
    pub fn flag(&mut self, pos: (usize, usize)) -> (r: Result<GameState, FlagError>)
        requires
            old(self).wf(),
        ensures
            final(self).wf(),
            flag_post(old(self)@, final(self)@, (pos.0 as int, pos.1 as int), r),
    {
        let ghost pre = self@;
        let ghost p = (pos.0 as int, pos.1 as int);
        match self.state {
            GameState::Lost => Err(FlagError::AlreadyLost),
            GameState::Init => Err(FlagError::MinesNotInit),
            GameState::Won => Err(FlagError::AlreadyWon),
            GameState::OnGoing => {
                if pos.0 >= self.cols || pos.1 >= self.rows {
                    Err(FlagError::OutOfBounds)
                } else {
                    proof {
                        lemma_idx_bound(pre.cols, pre.rows, p.0, p.1);
                    }
                    let i = pos.1 * self.cols + pos.0;
                    if self.open_fields[i] {
                        Err(FlagError::AlreadyOpen)
                    } else if self.flagged_fields[i] {
                        self.flagged_fields[i] = false;
                        proof {
                            assert(self@ =~~= pre.with_flag(p, false));
                            assert forall|q: (int, int)|
                                self@.in_bounds(q) implies #[trigger] self@.count_at(q)
                                == self@.adj_mines(q) by {
                                assert(pre.count_at(q) == pre.adj_mines(q));
                            }
                            assert(self@.inv());
                        }
                        Ok(GameState::OnGoing)
                    } else {
                        self.flagged_fields[i] = true;
                        proof {
                            assert(self@.counts =~= pre.counts);
                            assert(self@.mines == pre.mines);
                            assert(self@.flagged == pre.flagged.update(i as int, true));
                            assert forall|j: int|
                                0 <= j < self@.area() implies !(#[trigger] self@.opened[j]
                                && self@.flagged[j]) by {
                                if j != i as int {
                                    assert(self@.flagged[j] == pre.flagged[j]);
                                }
                            }
                            assert forall|q: (int, int)|
                                self@.in_bounds(q) implies #[trigger] self@.count_at(q)
                                == self@.adj_mines(q) by {
                                assert(pre.count_at(q) == pre.adj_mines(q));
                            }
                            assert(self@.inv());
                        }
                        let w = self.check_win_condition();
                        if w == GameState::Won {
                            let ghost before = self@;
                            self.state = GameState::Won;
                            proof {
                                assert(self@ =~~= BoardModel { state: GameState::Won, ..before });
                                assert forall|q: (int, int)|
                                    self@.in_bounds(q) implies #[trigger] self@.count_at(q)
                                    == self@.adj_mines(q) by {
                                    assert(before.count_at(q) == before.adj_mines(q));
                                }
                                assert(self@.inv());
                            }
                            Ok(GameState::Won)
                        } else {
                            Ok(GameState::OnGoing)
                        }
                    }
                }
            },
        }
    }
}

} // verus!
