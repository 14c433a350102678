//! Players: anything that picks a move on a board, and a game between two.
use vstd::prelude::*;
use crate::N2;
use crate::alphabeta::{alphabeta, fail_soft};
use crate::bitboards::WinLines;
use crate::board::{is_play, lemma_after, lemma_play_step, lemma_unfinished_has_move, plays_to, Board, State, PLAYER1};
use crate::minimax::{minimax, move_value, value};

verus! {

/// Picks a legal move on an unfinished board.
pub trait Player {
    fn best_move(&self, board: &Board, lines: &WinLines) -> (r: usize)
        requires
            board.wf(),
            lines.wf(),
            board.state_spec() == State::Unfinished,
        ensures
            board.legal(r as int),
    ;
}

/// Plays by alpha-beta search.
pub struct AlphaBeta;

impl AlphaBeta {
    /// Alpha-beta search with window `(alpha, beta)`.
    pub fn search(board: &Board, lines: &WinLines, alpha: isize, beta: isize) -> (r: (isize, usize))
        requires
            board.wf(),
            lines.wf(),
            -2 <= alpha < beta <= 2,
        ensures
            -1 <= r.0 <= 1,
            fail_soft(r.0 as int, value(*board), alpha as int, beta as int),
            alpha == -2 && beta == 2 ==> r.0 == value(*board),
            board.state_spec() != State::Unfinished ==> r.1 == 0 && r.0 == value(*board),
            board.state_spec() == State::Unfinished ==> board.legal(r.1 as int),
            board.state_spec() == State::Unfinished && alpha < r.0 < beta ==> move_value(*board, r.1 as int) == r.0,
            board.state_spec() == State::Unfinished && board.forced_spec() != 0 ==> r.1 == board.forced_spec(),
    {
        alphabeta(board, lines, alpha, beta)
    }
}

impl Player for AlphaBeta {
    fn best_move(&self, board: &Board, lines: &WinLines) -> (r: usize) {
        AlphaBeta::search(board, lines, -2, 2).1
    }
}

/// Plays by exhaustive negamax search.
pub struct Minimax;

impl Minimax {
    /// The value of `board` and the first move in ascending order that reaches it.
    pub fn search(board: &Board, lines: &WinLines) -> (r: (isize, usize))
        requires
            board.wf(),
            lines.wf(),
        ensures
            r.0 == value(*board),
            board.state_spec() != State::Unfinished ==> r.1 == 0,
            board.state_spec() == State::Unfinished ==> board.legal(r.1 as int) && move_value(*board, r.1 as int) == r.0,
            board.state_spec() == State::Unfinished ==> forall|m: int| 1 <= m < r.1 && #[trigger] board.legal(m) ==> move_value(*board, m) < r.0,
    {
        minimax(board, lines)
    }
}

impl Player for Minimax {
    fn best_move(&self, board: &Board, lines: &WinLines) -> (r: usize) {
        Minimax::search(board, lines).1
    }
}

/// A learned player: trained on positions, tested, then asked for moves.
pub trait Network {
    fn train(&mut self, lines: &WinLines);

    fn test(&self, lines: &WinLines);

    /// The square (1-indexed) the network rates highest on `board`.
    fn play(&self, board: &Board) -> usize;
}

impl<T: Network> Player for T {
    /// The network's pick when it is a legal move. A network may rate an
    /// occupied square highest: then the lowest legal move is played instead,
    /// so that a game never stops on an illegal move.
    fn best_move(&self, board: &Board, lines: &WinLines) -> (r: usize) {
        let m = self.play(board);
        if 1 <= m && m <= N2 && board.empty() & (1u64 << ((m - 1) as u64)) != 0 {
            proof {
                crate::board::lemma_bit_mask_pub(board.empties(), (m - 1) as u64);
            }
            m
        } else {
            proof {
                lemma_unfinished_has_move(*board);
            }
            let moves = board.gen_moves();
            moves[0]
        }
    }
}

/// The outcome of a finished game: 1 if player 1 won, -1 if player 2 won, 0 for a draw.
pub open spec fn outcome(s: State) -> int {
    match s {
        State::Player1Won => 1,
        State::Player2Won => -1,
        _ => 0,
    }
}

/// Plays a game from the empty board with `first` to move, player 1 choosing
/// the moves on player 1's turns and player 2 on the others, and returns its
/// outcome: the game ends at the first finished board.
pub fn play_game<T: Player, K: Player>(player1: &T, player2: &K, lines: &WinLines, first: usize) -> (r: isize)
    requires
        lines.wf(),
        first < 2,
    ensures
        -1 <= r <= 1,
        exists|end: Board| #![auto] end.wf() && end.state_spec() != State::Unfinished && r == outcome(end.state_spec())
            && plays_to((Board { tiles: [0, 0], turn: first }), end),
{
    let mut board = Board { tiles: [0, 0], turn: first };
    let ghost start = board;
    let ghost mut path: Seq<Board> = seq![board];
    assert(0u64 & 0u64 == 0 && (0u64 | 0u64) & 0x1ff == 0u64 | 0u64) by (bit_vector);
    let mut state = board.state(lines);
    while state == State::Unfinished
        invariant
            board.wf(),
            lines.wf(),
            state == board.state_spec(),
            is_play(path),
            path[0] == start,
            path.last() == board,
        decreases board.empties(),
    {
        let move_: usize;
        if board.turn == PLAYER1 {
            move_ = player1.best_move(&board, lines);
        } else {
            move_ = player2.best_move(&board, lines);
        }
        proof {
            lemma_after(board, move_ as int);
            lemma_play_step(path, move_ as int);
            path = path.push(board.after(move_ as int));
        }
        board.make(move_);
        state = board.state(lines);
    }
    assert(plays_to(start, board));
    match state {
        State::Player1Won => 1,
        State::Player2Won => -1,
        _ => 0,
    }
}

} // verus!
