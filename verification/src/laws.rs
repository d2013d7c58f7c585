//! The engine's laws: determinism, invariance of the mine set, disjointness
//! of opened and flagged cells, win correctness, and flag idempotence, each
//! proved from the contracts that the board operations state.

use vstd::prelude::*;
use crate::board::{DRAW_BUDGET, FlagError, GameState, OpenError};
use crate::model::{
    BoardModel, count_true, flag_post, generated_model, open_post, lemma_idx_round,
    lemma_pos_round,
};
use crate::rng::{generation_complete, mine_set_at};

verus! {

/// Determinism of mine generation: two boards initialized with the same
/// dimensions, mine target, seed, and start position hold the same mines.
/// The hypotheses are exactly what `Board::init_mines` ensures for a seeded
/// board whose rejection sampling completes within the draw budget.
pub proof fn lemma_init_deterministic(
    b1: BoardModel,
    b2: BoardModel,
    cols: int,
    rows: int,
    nr: int,
    sd: u64,
    start: (int, int),
    i: nat,
)
    requires
        i <= DRAW_BUDGET as nat,
        generation_complete(sd, cols, rows, start, nr, i),
        forall|p: (int, int)|
            #[trigger] b1.is_mine(p) <==> mine_set_at(sd, cols, rows, start, i).contains(p),
        forall|p: (int, int)|
            #[trigger] b2.is_mine(p) <==> mine_set_at(sd, cols, rows, start, i).contains(p),
    ensures
        forall|p: (int, int)| #[trigger] b1.is_mine(p) <==> b2.is_mine(p),
{
}

/// Determinism of initialization, the first cascade included: two boards
/// that were initialized with the same dimensions and mine target and came
/// out holding the same mines are equal outright — the initial reveal is a
/// function of the mine layout alone. The two `open_post` hypotheses are
/// what `Board::init_mines` ensures about the opening of the start cell.
pub proof fn lemma_init_boards_equal(
    b1: BoardModel,
    b2: BoardModel,
    rows: int,
    cols: int,
    nr: int,
    start: (int, int),
    g1: GameState,
    g2: GameState,
)
    requires
        b1.inv(),
        b2.inv(),
        b1.rows == rows && b1.cols == cols && b1.nr_mines == nr,
        b2.rows == rows && b2.cols == cols && b2.nr_mines == nr,
        b1.mines is Some,
        b2.mines is Some,
        forall|p: (int, int)| #[trigger] b1.is_mine(p) <==> b2.is_mine(p),
        open_post(generated_model(rows, cols, nr, b1.mines.unwrap()), b1, start, Ok(g1)),
        open_post(generated_model(rows, cols, nr, b2.mines.unwrap()), b2, start, Ok(g2)),
    ensures
        b1 == b2,
        g1 == g2,
{
    broadcast use lemma_pos_round;

    let m1 = b1.mines.unwrap();
    let m2 = b2.mines.unwrap();
    assert forall|i: int| 0 <= i < m1.len() implies m1[i] == m2[i] by {
        let p = b1.pos_of(i);
        assert(b1.is_mine(p) == m1[i]);
        assert(b2.is_mine(p) == m2[i]);
    }
    assert(m1 =~= m2);
    let gen = generated_model(rows, cols, nr, m1);
    assert(gen.opened.len() == gen.area());
    lemma_open_deterministic(gen, b1, b2, start, Ok(g1), Ok(g2));
}

/// Determinism of `open`: on equal boards, opening the same position gives
/// the same result and leaves equal boards behind.
pub proof fn lemma_open_deterministic(
    pre: BoardModel,
    post1: BoardModel,
    post2: BoardModel,
    p: (int, int),
    r1: Result<GameState, OpenError>,
    r2: Result<GameState, OpenError>,
)
    requires
        pre.rows >= 1,
        pre.cols >= 1,
        pre.opened.len() == pre.area(),
        open_post(pre, post1, p, r1),
        open_post(pre, post2, p, r2),
    ensures
        post1 == post2,
        r1 == r2,
{
    broadcast use lemma_pos_round;

    if pre.state == GameState::OnGoing && pre.in_bounds(p) && !pre.is_mine(p) && !pre.is_flagged(
        p,
    ) && !pre.is_open(p) {
        let mid = pre.with_opened(p);
        if pre.count_at(p) == 0 {
            assert forall|i: int|
                0 <= i < post1.opened.len() implies post1.opened[i] == post2.opened[i] by {
                let q = pre.pos_of(i);
                assert(post1.is_open(q) <==> mid.is_open(q) || mid.cascade_reaches(p, q));
                assert(post2.is_open(q) <==> mid.is_open(q) || mid.cascade_reaches(p, q));
            }
            assert(post1.opened =~= post2.opened);
        }
        assert(post1 =~~= post2);
    }
}

/// Determinism of `flag`: on equal boards, flagging the same position gives
/// the same result and leaves equal boards behind.
pub proof fn lemma_flag_deterministic(
    pre: BoardModel,
    post1: BoardModel,
    post2: BoardModel,
    p: (int, int),
    r1: Result<GameState, FlagError>,
    r2: Result<GameState, FlagError>,
)
    requires
        flag_post(pre, post1, p, r1),
        flag_post(pre, post2, p, r2),
    ensures
        post1 == post2,
        r1 == r2,
{
    if pre.state == GameState::OnGoing && pre.in_bounds(p) && !pre.is_open(p) && !pre.is_flagged(
        p,
    ) {
        assert(post1 =~~= post2);
    }
}

/// Opened and flagged cells are disjoint on every well-formed board.
pub proof fn lemma_open_flag_disjoint(m: BoardModel, p: (int, int))
    requires
        m.inv(),
    ensures
        !(m.is_open(p) && m.is_flagged(p)),
{
    broadcast use lemma_idx_round;

    if m.in_bounds(p) {
        let i = m.idx(p);
        assert(!(m.opened[i] && m.flagged[i]));
    }
}

/// The mine set never changes once initialized: `open` leaves it as it was.
pub proof fn lemma_mines_stable_open(
    pre: BoardModel,
    post: BoardModel,
    p: (int, int),
    r: Result<GameState, OpenError>,
)
    requires
        open_post(pre, post, p, r),
    ensures
        post.mines == pre.mines,
{
}

/// The mine set never changes once initialized: `flag` leaves it as it was.
pub proof fn lemma_mines_stable_flag(
    pre: BoardModel,
    post: BoardModel,
    p: (int, int),
    r: Result<GameState, FlagError>,
)
    requires
        flag_post(pre, post, p, r),
    ensures
        post.mines == pre.mines,
{
}

/// An initialized well-formed board holds exactly `nr_mines` mines.
pub proof fn lemma_mine_count(m: BoardModel)
    requires
        m.inv(),
        m.mines is Some,
    ensures
        count_true(m.mines.unwrap()) == m.nr_mines,
{
}

/// Win correctness for `open`: after a successful open of a safe closed
/// cell, the state is `Won` exactly when the flagged cells are exactly the
/// mines and together with the opened cells cover the whole grid.
pub proof fn lemma_win_correct_open(
    pre: BoardModel,
    post: BoardModel,
    p: (int, int),
    r: Result<GameState, OpenError>,
)
    requires
        pre.inv(),
        post.inv(),
        open_post(pre, post, p, r),
        pre.state == GameState::OnGoing,
        pre.in_bounds(p),
        !pre.is_mine(p),
        !pre.is_flagged(p),
        !pre.is_open(p),
    ensures
        post.state == GameState::Won <==> (post.mines is Some && post.flagged
            == post.mines.unwrap() && count_true(post.opened) + count_true(post.flagged)
            == post.area()),
        r == Ok::<GameState, OpenError>(post.state),
{
}

/// Win correctness for `flag`: after flagging a closed unflagged cell, the
/// state is `Won` exactly when the flagged cells are exactly the mines and
/// together with the opened cells cover the whole grid.
pub proof fn lemma_win_correct_flag(
    pre: BoardModel,
    post: BoardModel,
    p: (int, int),
    r: Result<GameState, FlagError>,
)
    requires
        pre.inv(),
        post.inv(),
        flag_post(pre, post, p, r),
        pre.state == GameState::OnGoing,
        pre.in_bounds(p),
        !pre.is_open(p),
        !pre.is_flagged(p),
    ensures
        post.state == GameState::Won <==> (post.mines is Some && post.flagged
            == post.mines.unwrap() && count_true(post.opened) + count_true(post.flagged)
            == post.area()),
        r == Ok::<GameState, FlagError>(post.state),
{
}

/// Flag idempotence: flagging then unflagging the same closed cell, with no
/// win triggered in between, restores the original board.
pub proof fn lemma_flag_unflag_idempotent(
    pre: BoardModel,
    mid: BoardModel,
    post: BoardModel,
    p: (int, int),
    r1: Result<GameState, FlagError>,
    r2: Result<GameState, FlagError>,
)
    requires
        pre.inv(),
        pre.state == GameState::OnGoing,
        pre.in_bounds(p),
        !pre.is_open(p),
        !pre.is_flagged(p),
        flag_post(pre, mid, p, r1),
        r1 == Ok::<GameState, FlagError>(GameState::OnGoing),
        flag_post(mid, post, p, r2),
    ensures
        post == pre,
        r2 == Ok::<GameState, FlagError>(GameState::OnGoing),
{
    broadcast use lemma_idx_round;

    assert(0 <= pre.idx(p) < pre.flagged.len());
    assert(mid.flagged == pre.flagged.update(pre.idx(p), true));
    assert(mid.state == GameState::OnGoing);
    assert(mid.is_flagged(p));
    assert(!mid.is_open(p));
    assert(post.flagged =~= pre.flagged);
    assert(post =~~= pre);
}

} // verus!
