//! Negamax with alpha-beta pruning, narrowed to the forced move when there is one.
use vstd::prelude::*;
use crate::bitboards::WinLines;
use crate::board::{lemma_after, lemma_unfinished_has_move, Board, State};
use crate::forced::lemma_forced_move;
use crate::minimax::{best, lemma_best_bounds, lemma_value_bounds, move_value, value};

verus! {

/// What a search with window `(alpha, beta)` may return as `r` for a position
/// of value `v`: an upper bound at or below `alpha`, a lower bound at or above
/// `beta`, and `v` itself strictly inside.
pub open spec fn fail_soft(r: int, v: int, alpha: int, beta: int) -> bool {
    &&& r <= alpha ==> v <= r
    &&& r >= beta ==> v >= r
    &&& alpha < r < beta ==> v == r
}

/// The best over a sequence is at least what each of its legal moves is worth.
pub proof fn lemma_best_ge(b: Board, ms: Seq<usize>, j: int)
    requires
        b.wf(),
        0 <= j < ms.len(),
        b.legal(ms[j] as int),
    ensures
        best(b, ms) >= move_value(b, ms[j] as int),
    decreases ms.len(),
{
    if j < ms.len() - 1 {
        lemma_best_ge(b, ms.drop_last(), j);
    }
}

/// Alpha-beta over the full window and exhaustive search agree on every
/// position: both scores are its value, and on an unfinished board both moves
/// are worth that value, so they can differ only among equally good moves.
pub proof fn lemma_searches_agree(b: Board, ab: (isize, usize), mm: (isize, usize))
    requires
        b.wf(),
        -1 <= ab.0 <= 1,
        fail_soft(ab.0 as int, value(b), -2, 2),
        b.state_spec() == State::Unfinished && -2 < ab.0 < 2 ==> move_value(b, ab.1 as int) == ab.0,
        mm.0 == value(b),
        b.state_spec() == State::Unfinished ==> move_value(b, mm.1 as int) == mm.0,
    ensures
        ab.0 == mm.0,
        b.state_spec() == State::Unfinished ==> move_value(b, ab.1 as int) == move_value(b, mm.1 as int),
{
}

/// Alpha-beta search with window `(alpha, beta)`: a score that bounds or
/// equals the value of `board` as `fail_soft` says, and the move that gave it
/// (0 on a finished board).
pub fn alphabeta(board: &Board, lines: &WinLines, alpha: isize, beta: isize) -> (r: (isize, usize))
    requires
        board.wf(),
        lines.wf(),
        -2 <= alpha < beta <= 2,
    ensures
        -1 <= r.0 <= 1,
        fail_soft(r.0 as int, value(*board), alpha as int, beta as int),
        alpha == -2 && beta == 2 ==> r.0 == value(*board),
        board.state_spec() != State::Unfinished ==> r.1 == 0 && r.0 == value(*board),
        board.state_spec() == State::Unfinished ==> board.legal(r.1 as int),
        board.state_spec() == State::Unfinished && alpha < r.0 < beta ==> move_value(*board, r.1 as int) == r.0,
        board.state_spec() == State::Unfinished && board.forced_spec() != 0 ==> r.1 == board.forced_spec(),
    decreases board.empties(),
{
    if board.state(lines) != State::Unfinished {
        proof {
            board.lemma_score_bounds();
        }
        return (board.score(lines), 0);
    }
    proof {
        lemma_unfinished_has_move(*board);
    }
    let mut moves: Vec<usize> = board.gen_moves();
    let mut max_score: isize = -2;
    let mut best_move: usize = 0;
    let mut alpha_ = alpha;
    let forced_move = board.find_forced(lines);
    if forced_move != 0 {
        proof {
            lemma_forced_move(*board);
            lemma_after(*board, forced_move as int);
            lemma_value_bounds(board.after(forced_move as int));
        }
        moves.clear();
        moves.push(forced_move);
        assert(moves@.drop_last() =~= Seq::<usize>::empty());
        assert(best(*board, moves@.drop_last()) == -2);
        assert(moves@.last() == forced_move);
        assert(value(*board) == best(*board, moves@));
    } else {
        assert(value(*board) == best(*board, moves@));
    }
    assert(value(*board) == best(*board, moves@));
    let mut i: usize = 0;
    while i < moves.len()
        invariant
            board.wf(),
            lines.wf(),
            board.state_spec() == State::Unfinished,
            -2 <= alpha <= alpha_ < beta <= 2,
            alpha_ as int == if max_score > alpha { max_score as int } else { alpha as int },
            i <= moves.len(),
            moves.len() > 0,
            value(*board) == best(*board, moves@),
            forall|j: int| 0 <= j < moves.len() ==> board.legal(#[trigger] moves[j] as int),
            i == 0 ==> max_score == -2,
            i > 0 ==> board.legal(best_move as int) && -1 <= max_score <= 1,
            max_score <= alpha ==> best(*board, moves@.take(i as int)) <= max_score,
            max_score > alpha ==> best(*board, moves@.take(i as int)) == max_score && move_value(*board, best_move as int) == max_score,
            max_score < beta,
            forced_move as int == board.forced_spec(),
            forced_move != 0 ==> moves.len() == 1 && moves[0] == forced_move,
            forced_move != 0 && i > 0 ==> best_move == forced_move,
        decreases moves.len() - i,
    {
        let move_ = moves[i];
        let mut copy = *board;
        proof {
            lemma_after(*board, move_ as int);
            lemma_best_bounds(*board, moves@.take(i as int));
        }
        copy.make(move_);
        let (child_score, _) = alphabeta(&copy, lines, -beta, -alpha_);
        let score: isize = -child_score;
        assert(moves@.take(i + 1).drop_last() =~= moves@.take(i as int));
        assert(moves@.take(i + 1).last() == move_);
        if score > max_score {
            max_score = score;
            best_move = move_;
            if max_score >= beta {
                proof {
                    lemma_best_ge(*board, moves@, i as int);
                }
                return (max_score, best_move);
            }
            if max_score > alpha_ {
                alpha_ = max_score;
            }
        }
        i = i + 1;
    }
    assert(moves@.take(moves.len() as int) =~= moves@);
    (max_score, best_move)
}

} // verus!
