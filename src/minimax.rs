//! Exhaustive negamax search.
use vstd::prelude::*;
use crate::bitboards::WinLines;
use crate::board::{lemma_after, lemma_unfinished_has_move, Board, State};

verus! {

/// The game-theoretic value of `b` for the player to move: the score of a
/// finished board, else the best over the legal moves of minus the value
/// after the move.
pub open spec fn value(b: Board) -> int
    decreases b.empties(), 1int, 0int,
{
    if b.state_spec() != State::Unfinished {
        b.score_spec()
    } else {
        best(b, b.moves())
    }
}

/// The best of minus the value after each legal move of `ms`; -2 with none.
pub open spec fn best(b: Board, ms: Seq<usize>) -> int
    decreases b.empties(), 0int, ms.len(),
{
    if ms.len() == 0 {
        -2
    } else {
        let rest = best(b, ms.drop_last());
        let m = ms.last() as int;
        if b.wf() && b.legal(m) {
            proof {
                lemma_after(b, m);
            }
            let v = -value(b.after(m));
            if v > rest {
                v
            } else {
                rest
            }
        } else {
            rest
        }
    }
}

/// Minus the value after move `m`: what `m` is worth to the player to move.
pub open spec fn move_value(b: Board, m: int) -> int {
    -value(b.after(m))
}

/// Every value lies in {-1, 0, 1}.
pub proof fn lemma_value_bounds(b: Board)
    requires
        b.wf(),
    ensures
        -1 <= value(b) <= 1,
    decreases b.empties(), 1int, 0int,
{
    if b.state_spec() == State::Unfinished {
        lemma_unfinished_has_move(b);
        lemma_best_bounds(b, b.moves());
    } else {
        b.lemma_score_bounds();
    }
}

/// Over legal moves, the best lies in {-1, 0, 1}, or is -2 with no move.
pub proof fn lemma_best_bounds(b: Board, ms: Seq<usize>)
    requires
        b.wf(),
        forall|i: int| 0 <= i < ms.len() ==> b.legal(#[trigger] ms[i] as int),
    ensures
        ms.len() == 0 ==> best(b, ms) == -2,
        ms.len() > 0 ==> -1 <= best(b, ms) <= 1,
    decreases b.empties(), 0int, ms.len(),
{
    if ms.len() > 0 {
        let m = ms.last() as int;
        assert(b.legal(ms[ms.len() - 1] as int));
        lemma_after(b, m);
        lemma_value_bounds(b.after(m));
        lemma_best_bounds(b, ms.drop_last());
    }
}

/// Full-depth negamax: the value of `board` for the player to move, and the
/// first move in ascending order that reaches it (0 on a finished board).
pub fn minimax(board: &Board, lines: &WinLines) -> (r: (isize, usize))
    requires
        board.wf(),
        lines.wf(),
    ensures
        r.0 == value(*board),
        -1 <= r.0 <= 1,
        board.state_spec() != State::Unfinished ==> r.1 == 0,
        board.state_spec() == State::Unfinished ==> board.legal(r.1 as int) && move_value(*board, r.1 as int) == r.0,
        board.state_spec() == State::Unfinished ==> forall|m: int| 1 <= m < r.1 && #[trigger] board.legal(m) ==> move_value(*board, m) < r.0,
    decreases board.empties(),
{
    if board.state(lines) != State::Unfinished {
        return (board.score(lines), 0);
    }
    proof {
        lemma_unfinished_has_move(*board);
    }
    let moves: Vec<usize> = board.gen_moves();
    let mut max_score: isize = -2;
    let mut best_move: usize = 0;
    let mut i: usize = 0;
    while i < moves.len()
        invariant
            board.wf(),
            lines.wf(),
            i <= moves.len(),
            moves@ == board.moves(),
            forall|j: int| 0 <= j < moves.len() ==> board.legal(#[trigger] moves[j] as int),
            forall|j: int, l: int| 0 <= j < l < moves.len() ==> #[trigger] moves[j] < #[trigger] moves[l],
            max_score == best(*board, moves@.take(i as int)),
            i == 0 ==> best_move == 0 && max_score == -2,
            i > 0 ==> board.legal(best_move as int) && move_value(*board, best_move as int) == max_score && -1 <= max_score <= 1,
            forall|j: int| 0 <= j < i && moves[j] < best_move ==> move_value(*board, #[trigger] moves[j] as int) < max_score,
            forall|j: int| 0 <= j < i ==> move_value(*board, #[trigger] moves[j] as int) <= max_score,
            forall|l: int| i <= l < moves.len() ==> best_move < #[trigger] moves[l],
        decreases moves.len() - i,
    {
        let move_ = moves[i];
        let mut copy = *board;
        proof {
            lemma_after(*board, move_ as int);
        }
        copy.make(move_);
        let (child_score, _) = minimax(&copy, lines);
        let score: isize = -child_score;
        assert(moves@.take(i + 1).drop_last() =~= moves@.take(i as int));
        if score > max_score {
            max_score = score;
            best_move = move_;
        }
        i = i + 1;
    }
    assert(moves@.take(moves.len() as int) =~= moves@);
    proof {
        assert forall|m: int| 1 <= m < best_move && #[trigger] board.legal(m) implies move_value(*board, m) < max_score by {
            assert(moves@.contains(m as usize));
        }
    }
    (max_score, best_move)
}

} // verus!
